//! `dlog context <path>`: the decision summary for a file or directory.
//!
//! A directory answers with a per-file rollup, count plus latest decision, rather than
//! one long stream; a path naming a single file is flat, since there is nothing to
//! group. The invariants in effect at the path ride along, because they are what must
//! be read before touching the code.
use crate::cli::ContextArgs;
use crate::commands::compact::{
    adaptive_width, candidate_rows, collect, cost_of, costs_of, fits, is_page, live_ids, row_cost,
    row_from_at, row_of, row_tells, summary_is_short, tells, total_cost, width_for, CompactRow, CompactRowView,
    SUMMARY_MAX,
};
use crate::commands::invariants::{in_effect, relevant};
use crate::commands::trace::capped;
use crate::commands::Workspace;
use crate::log::Log;
use crate::model::{AnchorView, StoredDecisionView};
use crate::paths;
use crate::queries::{lies_under, pairs_are_anchored, selecting_keeps_order, superseded_by_name};
use crate::resolve::newest_first;
use crate::store::{pairs_under, InvariantRow, Store};
use crate::table::{holds, listed, lookup, lookup_sound};
use crate::text;
use vstd::prelude::*;

verus! {

/// Most invariants that a reply carries.
pub const INVARIANT_CAP: usize = 20;

/// Describes the interpreted query. `mode` names which shape the results took.
#[derive(Debug, PartialEq, Eq)]
pub struct ContextDesc {
    pub kind: &'static str,
    pub path: String,
    pub mode: &'static str,
}

/// One file's decisions, rolled up.
#[derive(Debug, PartialEq, Eq)]
pub struct FileRollup {
    pub file: String,
    /// Live decisions anchored to this file under the queried path.
    pub count: usize,
    /// The newest of them.
    pub latest: CompactRow,
}

/// The value of a `FileRollup`.
pub ghost struct FileRollupView {
    pub file: Seq<char>,
    pub count: usize,
    pub latest: CompactRowView,
}

impl DeepView for FileRollup {
    type V = FileRollupView;

    open spec fn deep_view(&self) -> FileRollupView {
        FileRollupView {
            file: self.file@,
            count: self.count,
            latest: self.latest.deep_view(),
        }
    }
}

impl View for FileRollup {
    type V = FileRollupView;

    open spec fn view(&self) -> FileRollupView {
        self.deep_view()
    }
}

impl Clone for FileRollup {
    fn clone(&self) -> (r: Self)
        ensures
            r@ == self@,
    {
        FileRollup {
            file: self.file.clone(),
            count: self.count,
            latest: self.latest.clone(),
        }
    }
}

/// The results: the flat stream of decisions, or the rollup per file.
#[derive(Debug, PartialEq, Eq)]
pub enum ContextRows {
    Flat(Vec<CompactRow>),
    Rollup(Vec<FileRollup>),
}

/// The reply.
#[derive(Debug, PartialEq, Eq)]
pub struct ContextEnvelope {
    pub query: ContextDesc,
    pub results: ContextRows,
    /// Invariants in effect at the path; absent where they are not wanted.
    pub invariants: Option<Vec<InvariantRow>>,
    /// Invariants beyond the cap that were not listed.
    pub invariants_elided: usize,
    pub truncated: bool,
    /// Results left out by the budget or the limit: decisions in flat mode, files in
    /// rollup mode.
    pub elided: usize,
}

/// The `(file, decision)` pairs under a path that are in scope, newest first.
pub open spec fn live_pairs(log: Log, path: Seq<char>, include_superseded: bool) -> Seq<
    (Seq<char>, Seq<char>),
> {
    pairs_under(log.decisions, path).filter(
        |pair: (Seq<char>, Seq<char>)| include_superseded || !log.is_superseded(pair.1),
    )
}

/// Each text once, first occurrences in order.
pub open spec fn firsts(s: Seq<Seq<char>>) -> Seq<Seq<char>>
    decreases s.len(),
{
    if s.len() == 0 {
        Seq::empty()
    } else {
        let out = firsts(s.drop_last());
        if out.contains(s.last()) {
            out
        } else {
            out.push(s.last())
        }
    }
}

/// The decisions of the pairs, each once.
pub open spec fn decisions_of(pairs: Seq<(Seq<char>, Seq<char>)>) -> Seq<Seq<char>> {
    firsts(pairs.map_values(|pair: (Seq<char>, Seq<char>)| pair.1))
}

/// The files of the pairs, each once.
pub open spec fn files_of(pairs: Seq<(Seq<char>, Seq<char>)>) -> Seq<Seq<char>> {
    firsts(pairs.map_values(|pair: (Seq<char>, Seq<char>)| pair.0))
}

/// The pairs of one file.
pub open spec fn pairs_of(pairs: Seq<(Seq<char>, Seq<char>)>, file: Seq<char>) -> Seq<
    (Seq<char>, Seq<char>),
> {
    pairs.filter(|pair: (Seq<char>, Seq<char>)| pair.0 == file)
}

/// Whether to roll up: as asked, and otherwise where there is more than one file.
pub open spec fn rolls_up(flat: bool, rollup: bool, pairs: Seq<(Seq<char>, Seq<char>)>) -> bool {
    !flat && (rollup || exists|i: int| 0 <= i < pairs.len() && (#[trigger] pairs[i]).0 != pairs[0].0)
}

/// The rollups of files: how many decisions each has and the newest of them.
pub open spec fn rollups_of(
    log: Log,
    pairs: Seq<(Seq<char>, Seq<char>)>,
    files: Seq<Seq<char>>,
    width: nat,
) -> Seq<FileRollupView>
    decreases files.len(),
{
    if files.len() == 0 {
        Seq::empty()
    } else {
        let rows = rollups_of(log, pairs, files.drop_last(), width);
        let own = pairs_of(pairs, files.last());
        match lookup(log.decisions, own[0].1) {
            Some(d) => rows.push(
                FileRollupView {
                    file: files.last(),
                    count: own.len() as usize,
                    latest: row_of(d, log.is_superseded(own[0].1), width),
                },
            ),
            None => rows,
        }
    }
}

/// What each rollup costs: its row and its file path.
pub open spec fn rollup_costs(rows: Seq<FileRollupView>) -> Seq<nat> {
    rows.map_values(|row: FileRollupView| cost_of(row.latest) + row.file.len())
}

/// Lists the pairs in scope.
fn pairs_in_scope(store: &Store, path: &str, include_superseded: bool) -> (r: Vec<(String, String)>)
    ensures
        r.deep_view() == live_pairs(store@, path@, include_superseded),
{
    let ghost log = store@;
    let pairs = store.anchors_under_path(path);
    let superseded = store.superseded_ids();
    let ghost all = pairs.deep_view();
    let ghost p = |pair: (Seq<char>, Seq<char>)| include_superseded || !log.is_superseded(pair.1);
    let mut out: Vec<(String, String)> = Vec::new();
    proof {
        reveal(Seq::filter);
    }
    assert(all.take(0) =~= Seq::empty());
    assert(out.deep_view() =~= Seq::empty());
    for i in 0..pairs.len()
        invariant
            all == pairs.deep_view(),
            log == store@,
            p == (|pair: (Seq<char>, Seq<char>)| include_superseded || !log.is_superseded(pair.1)),
            forall|id: Seq<char>| #[trigger]
                superseded.deep_view().contains(id) <==> log.is_superseded(id),
            out.deep_view() == all.take(i as int).filter(p),
    {
        let ghost pair = all[i as int];
        let ghost before = out.deep_view();
        assert(all.take(i + 1) =~= all.take(i as int).push(pair));
        proof {
            all.take(i as int).lemma_filter_push(pair, p);
        }
        assert(pair == (pairs[i as int].0@, pairs[i as int].1@));
        if include_superseded || !listed(&superseded, pairs[i].1.as_str()) {
            out.push((pairs[i].0.clone(), pairs[i].1.clone()));
            assert(out.deep_view() =~= before.push(pair));
        }
    }
    assert(all.take(all.len() as int) =~= all);
    out
}

/// Whether to roll up: as asked, and otherwise where there is more than one file.
pub fn wants_rollup(args: &ContextArgs, pairs: &Vec<(String, String)>) -> (r: bool)
    ensures
        r == rolls_up(args.flat, args.rollup, pairs.deep_view()),
{
    if args.flat {
        return false;
    }
    if args.rollup {
        return true;
    }
    let ghost all = pairs.deep_view();
    for i in 0..pairs.len()
        invariant
            all == pairs.deep_view(),
            !args.flat && !args.rollup,
            forall|j: int| 0 <= j < i ==> (#[trigger] all[j]).0 == all[0].0,
    {
        assert(all[i as int].0 == pairs[i as int].0@);
        assert(all[0].0 == pairs[0].0@);
        if !text::same(pairs[i].0.as_str(), pairs[0].0.as_str()) {
            return true;
        }
    }
    false
}

/// Lists the decisions (or the files) of the pairs, each once.
fn distinct(pairs: &Vec<(String, String)>, files: bool) -> (r: Vec<String>)
    ensures
        r.deep_view() == (if files {
            files_of(pairs.deep_view())
        } else {
            decisions_of(pairs.deep_view())
        }),
{
    let ghost all = if files {
        pairs.deep_view().map_values(|pair: (Seq<char>, Seq<char>)| pair.0)
    } else {
        pairs.deep_view().map_values(|pair: (Seq<char>, Seq<char>)| pair.1)
    };
    let mut out: Vec<String> = Vec::new();
    assert(all.take(0) =~= Seq::empty());
    assert(out.deep_view() =~= Seq::empty());
    for i in 0..pairs.len()
        invariant
            all == (if files {
                pairs.deep_view().map_values(|pair: (Seq<char>, Seq<char>)| pair.0)
            } else {
                pairs.deep_view().map_values(|pair: (Seq<char>, Seq<char>)| pair.1)
            }),
            out.deep_view() == firsts(all.take(i as int)),
    {
        assert(all.take(i + 1).drop_last() =~= all.take(i as int));
        let item = if files {
            &pairs[i].0
        } else {
            &pairs[i].1
        };
        assert(all.take(i + 1).last() == item@);
        if !listed(&out, item.as_str()) {
            let ghost before = out.deep_view();
            out.push(item.clone());
            assert(out.deep_view() =~= before.push(item@));
        }
    }
    assert(all.take(all.len() as int) =~= all);
    out
}

/// How many pairs name the file, and the decision of the first.
fn tally(pairs: &Vec<(String, String)>, file: &str) -> (r: (usize, Option<usize>))
    ensures
        r.0 == pairs_of(pairs.deep_view(), file@).len(),
        r.1 matches Some(i) ==> i < pairs.len() && pairs_of(pairs.deep_view(), file@)[0].1
            == pairs.deep_view()[i as int].1,
        r.1 is None <==> pairs_of(pairs.deep_view(), file@).len() == 0,
{
    let ghost all = pairs.deep_view();
    let ghost p = |pair: (Seq<char>, Seq<char>)| pair.0 == file@;
    let mut count: usize = 0;
    let mut first: Option<usize> = None;
    proof {
        reveal(Seq::filter);
    }
    assert(all.take(0) =~= Seq::empty());
    for i in 0..pairs.len()
        invariant
            all == pairs.deep_view(),
            p == (|pair: (Seq<char>, Seq<char>)| pair.0 == file@),
            count <= i,
            count == all.take(i as int).filter(p).len(),
            first matches Some(k) ==> k < i && all.take(i as int).filter(p).len() > 0 && all.take(
                i as int,
            ).filter(p)[0].1 == all[k as int].1,
            first is None <==> all.take(i as int).filter(p).len() == 0,
    {
        let ghost pair = all[i as int];
        assert(all.take(i + 1) =~= all.take(i as int).push(pair));
        proof {
            all.take(i as int).lemma_filter_push(pair, p);
        }
        assert(pair.0 == pairs[i as int].0@);
        if text::same(pairs[i].0.as_str(), file) {
            count = count + 1;
            if first.is_none() {
                first = Some(i);
            }
        }
    }
    assert(all.take(all.len() as int) =~= all);
    (count, first)
}

/// Every file of the pairs has a pair.
proof fn file_has_a_pair(pairs: Seq<(Seq<char>, Seq<char>)>, file: Seq<char>)
    requires
        files_of(pairs).contains(file),
    ensures
        pairs_of(pairs, file).len() > 0,
{
    let names = pairs.map_values(|pair: (Seq<char>, Seq<char>)| pair.0);
    firsts_are_there(names, file);
    let k = names.index_of(file);
    assert(pairs.contains(pairs[k]));
    has_own_pair(pairs, file, k);
}

proof fn has_own_pair(pairs: Seq<(Seq<char>, Seq<char>)>, file: Seq<char>, k: int)
    requires
        0 <= k < pairs.len(),
        pairs[k].0 == file,
    ensures
        pairs_of(pairs, file).len() > 0,
    decreases pairs.len(),
{
    reveal(Seq::filter);
    if k < pairs.len() - 1 {
        has_own_pair(pairs.drop_last(), file, k);
    }
}

/// First occurrences are occurrences, each once.
pub proof fn firsts_are_there(s: Seq<Seq<char>>, x: Seq<char>)
    ensures
        firsts(s).contains(x) <==> s.contains(x),
        firsts(s).no_duplicates(),
    decreases s.len(),
{
    if s.len() > 0 {
        let front = s.drop_last();
        let out = firsts(front);
        firsts_are_there(front, x);
        firsts_are_there(front, s.last());
        if front.contains(x) {
            assert(s[front.index_of(x)] == x);
        }
        if s.contains(x) && s.index_of(x) < front.len() {
            assert(front[s.index_of(x)] == x);
        }
        assert(s[s.len() - 1] == s.last());
        if !out.contains(s.last()) {
            let all = out.push(s.last());
            if out.contains(x) {
                assert(all[out.index_of(x)] == x);
            }
            assert(all[out.len() as int] == s.last());
            if all.contains(x) && all.index_of(x) < out.len() {
                assert(out[all.index_of(x)] == x);
            }
            assert forall|i: int, j: int| 0 <= i < all.len() && 0 <= j < all.len() && i != j implies all[i]
                != all[j] by {
                if i < out.len() && j < out.len() {
                    assert(out[i] != out[j]);
                } else if i < out.len() {
                    assert(out.contains(out[i]));
                } else if j < out.len() {
                    assert(out.contains(out[j]));
                }
            }
        }
    }
}

/// How many pairs the first `n` files have together.
pub open spec fn pair_total(pairs: Seq<(Seq<char>, Seq<char>)>, files: Seq<Seq<char>>, n: int) -> nat
    decreases n,
{
    if n <= 0 {
        0
    } else {
        pair_total(pairs, files, n - 1) + pairs_of(pairs, files[n - 1]).len()
    }
}

/// One pair more adds one to its file and nothing to the others.
proof fn pair_total_push(
    pairs: Seq<(Seq<char>, Seq<char>)>,
    pair: (Seq<char>, Seq<char>),
    files: Seq<Seq<char>>,
    n: int,
)
    requires
        0 <= n <= files.len(),
        files.no_duplicates(),
    ensures
        pair_total(pairs.push(pair), files, n) == pair_total(pairs, files, n) + (if files.take(n).contains(
            pair.0,
        ) {
            1nat
        } else {
            0nat
        }),
    decreases n,
{
    if n > 0 {
        pair_total_push(pairs, pair, files, n - 1);
        let file = files[n - 1];
        pairs.lemma_filter_push(pair, |p: (Seq<char>, Seq<char>)| p.0 == file);
        let before = files.take(n - 1);
        let now = files.take(n);
        assert(now =~= before.push(file));
        assert(pairs_of(pairs.push(pair), file).len() == pairs_of(pairs, file).len() + (if pair.0 == file {
            1nat
        } else {
            0nat
        })) by {
            reveal(Seq::filter);
            assert(pairs.push(pair).drop_last() =~= pairs);
        }
        if before.contains(pair.0) {
            let k = before.index_of(pair.0);
            assert(files[k] == pair.0);
            assert(now[k] == pair.0);
            assert(pair.0 != file);
        }
        if pair.0 == file {
            assert(now[n - 1] == file);
        }
        if now.contains(pair.0) && pair.0 != file {
            let k = now.index_of(pair.0);
            assert(before[k] == pair.0);
        }
    } else {
        assert(files.take(0) =~= Seq::empty());
    }
}

/// Nothing is lost in a rollup: the counts of the files together are the number of pairs,
/// a decision once for each of its files.
pub proof fn rollup_counts_every_pair(pairs: Seq<(Seq<char>, Seq<char>)>)
    ensures
        pair_total(pairs, files_of(pairs), files_of(pairs).len() as int) == pairs.len(),
    decreases pairs.len(),
{
    let f = |pair: (Seq<char>, Seq<char>)| pair.0;
    if pairs.len() > 0 {
        let front = pairs.drop_last();
        let pair = pairs.last();
        let files = files_of(front);
        rollup_counts_every_pair(front);
        assert(pairs =~= front.push(pair));
        assert(pairs.map_values(f).drop_last() =~= front.map_values(f));
        assert(pairs.map_values(f).last() == pair.0);
        firsts_are_there(front.map_values(f), pair.0);
        pair_total_push(front, pair, files, files.len() as int);
        assert(files.take(files.len() as int) =~= files);
        if !files.contains(pair.0) {
            let all = files.push(pair.0);
            assert(files_of(pairs) == all);
            pair_total_agrees(pairs, files, all, files.len() as int);
            assert(pairs_of(front, pair.0).len() == 0) by {
                no_pairs_elsewhere(front, pair.0);
            }
            assert(pairs_of(pairs, pair.0).len() == 1) by {
                reveal(Seq::filter);
            }
        }
    } else {
        assert(pairs.map_values(f) =~= Seq::empty());
    }
}

proof fn pair_total_agrees(
    pairs: Seq<(Seq<char>, Seq<char>)>,
    a: Seq<Seq<char>>,
    b: Seq<Seq<char>>,
    n: int,
)
    requires
        0 <= n <= a.len(),
        n <= b.len(),
        forall|i: int| 0 <= i < n ==> a[i] == b[i],
    ensures
        pair_total(pairs, a, n) == pair_total(pairs, b, n),
    decreases n,
{
    if n > 0 {
        pair_total_agrees(pairs, a, b, n - 1);
    }
}

/// A file that no pair names has none.
proof fn no_pairs_elsewhere(pairs: Seq<(Seq<char>, Seq<char>)>, file: Seq<char>)
    requires
        !files_of(pairs).contains(file),
    ensures
        pairs_of(pairs, file).len() == 0,
    decreases pairs.len(),
{
    let f = |pair: (Seq<char>, Seq<char>)| pair.0;
    let names = pairs.map_values(f);
    firsts_are_there(names, file);
    reveal(Seq::filter);
    if pairs.len() > 0 {
        let front = pairs.drop_last();
        assert(names[pairs.len() - 1] == pairs.last().0);
        firsts_are_there(front.map_values(f), file);
        if front.map_values(f).contains(file) {
            let k = front.map_values(f).index_of(file);
            assert(names[k] == file);
        }
        no_pairs_elsewhere(front, file);
    }
}

/// The rollups of more files start with those of fewer.
proof fn rollups_prefix(
    log: Log,
    pairs: Seq<(Seq<char>, Seq<char>)>,
    files: Seq<Seq<char>>,
    width: nat,
    k: int,
)
    requires
        0 <= k <= files.len(),
    ensures
        rollups_of(log, pairs, files.take(k), width).len() <= k,
        rollups_of(log, pairs, files.take(k), width).len() <= rollups_of(log, pairs, files, width).len(),
        forall|i: int|
            0 <= i < rollups_of(log, pairs, files.take(k), width).len() ==> rollups_of(
                log,
                pairs,
                files.take(k),
                width,
            )[i] == rollups_of(log, pairs, files, width)[i],
    decreases files.len() + k,
{
    if k == files.len() {
        assert(files.take(k) =~= files);
        if k > 0 {
            rollups_prefix(log, pairs, files.drop_last(), width, k - 1);
            assert(files.drop_last().take(k - 1) =~= files.drop_last());
        }
    } else {
        let front = files.drop_last();
        rollups_prefix(log, pairs, front, width, k);
        assert(front.take(k) =~= files.take(k));
    }
}

/// Groups the pairs by file, newest first by each file's latest decision, and lists
/// rows until the budget or the limit is reached. Returns the rows, whether any were
/// left out, and how many.
pub fn collect_rollup(store: &Store, pairs: &Vec<(String, String)>, limit: usize, budget: usize) -> (r: (
    Vec<FileRollup>,
    bool,
    usize,
))
    requires
        store.wf(),
    ensures
        ({
            let files = files_of(pairs.deep_view());
            let rows = rollups_of(
                store@,
                pairs.deep_view(),
                files,
                width_for(budget as nat, files.len()),
            );
            &&& is_page(rollup_costs(rows), limit as nat, budget as nat, r.0@.len() as int)
            &&& r.0.deep_view() == rows.take(r.0@.len() as int)
            &&& r.2 == files.len() - r.0@.len()
            &&& r.1 == (r.2 > 0)
        }),
{
    let ghost log = store@;
    let ghost ps = pairs.deep_view();
    let superseded = store.superseded_ids();
    let order = distinct(pairs, true);
    let ghost all = order.deep_view();
    let width: usize = adaptive_width(budget, order.len());
    let ghost whole = rollups_of(log, ps, all, width as nat);
    let ghost costs = rollup_costs(whole);
    let mut rows: Vec<FileRollup> = Vec::new();
    let mut running: usize = 0;
    let mut i: usize = 0;
    let mut stopped = false;
    assert(all.take(0) =~= Seq::empty());
    assert(rows.deep_view() =~= Seq::empty());
    while i < order.len() && !stopped
        invariant
            i <= order.len(),
            store.wf(),
            log == store@,
            ps == pairs.deep_view(),
            all == order.deep_view(),
            all == files_of(ps),
            whole == rollups_of(log, ps, all, width as nat),
            costs == rollup_costs(whole),
            width <= SUMMARY_MAX,
            forall|id: Seq<char>| #[trigger]
                superseded.deep_view().contains(id) <==> log.is_superseded(id),
            rows@.len() <= i,
            rows@.len() <= limit,
            rows@.len() <= whole.len(),
            !stopped ==> rows.deep_view() == rollups_of(log, ps, all.take(i as int), width as nat),
            rows.deep_view() =~= whole.take(rows@.len() as int),
            fits(costs, budget as nat, rows@.len() as int),
            budget > 0 ==> running == capped(total_cost(costs, rows@.len() as int)),
            rows@.len() > 0 && budget > 0 ==> running > 0,
            stopped ==> is_page(costs, limit as nat, budget as nat, rows@.len() as int),
        decreases
            order.len() - i,
            (if stopped {
                0nat
            } else {
                1nat
            }),
    {
        let ghost before = rows.deep_view();
        let ghost n = rows@.len() as int;
        let ghost file = all[i as int];
        if rows.len() >= limit {
            stopped = true;
        } else {
            proof {
                assert(all.take(i + 1).drop_last() =~= all.take(i as int));
                assert(all.take(i + 1).last() == order[i as int]@);
                rollups_prefix(log, ps, all, width as nat, i + 1);
                assert(all.contains(file));
                file_has_a_pair(ps, file);
            }
            let ghost next = rollups_of(log, ps, all.take(i + 1), width as nat);
            let (count, first) = tally(pairs, order[i].as_str());
            let k: usize = match first {
                Some(k) => k,
                None => 0,
            };
            let latest_id = pairs[k].1.as_str();
            assert(ps[k as int].1 == latest_id@);
            match store.get_decision(latest_id) {
                None => {
                    i = i + 1;
                },
                Some(d) => {
                    let latest = row_from_at(&d, listed(&superseded, latest_id), width);
                    proof {
                        summary_is_short(d@.rationale, width as nat);
                    }
                    let base: usize = row_cost(&latest);
                    let name_len: usize = text::char_count(order[i].as_str());
                    let cost: usize = if name_len > usize::MAX - base {
                        usize::MAX
                    } else {
                        base + name_len
                    };
                    let row = FileRollup { file: order[i].clone(), count, latest };
                    assert(next == before.push(row@));
                    assert(next[n] == row@);
                    assert(whole[n] == row@);
                    assert(costs[n] == cost_of(row@.latest) + row@.file.len());
                    assert(cost == capped(costs[n]));
                    assert(total_cost(costs, n + 1) == total_cost(costs, n) + costs[n]);
                    if budget > 0 && rows.len() > 0 && (running > budget || cost > budget - running) {
                        stopped = true;
                        assert(!fits(costs, budget as nat, n + 1));
                    } else {
                        if budget > 0 {
                            running = if rows.len() == 0 {
                                cost
                            } else {
                                running + cost
                            };
                        }
                        rows.push(row);
                        i = i + 1;
                        assert(rows.deep_view() =~= next);
                        assert(rows.deep_view() =~= whole.take(n + 1));
                    }
                },
            }
        }
    }
    proof {
        if !stopped {
            assert(all.take(all.len() as int) =~= all);
        }
    }
    let elided: usize = order.len() - rows.len();
    (rows, elided > 0, elided)
}

/// The invariants in effect at a path, as many as the cap allows, and how many more
/// there are.
pub fn invariants_for(store: &Store, path: &str) -> (r: (Vec<InvariantRow>, usize))
    ensures
        ({
            let all = in_effect(store@, Some(path@));
            let n = if all.len() < INVARIANT_CAP {
                all.len() as int
            } else {
                INVARIANT_CAP as int
            };
            r.0.deep_view() == all.take(n) && r.1 == all.len() - n
        }),
{
    let mut rows = relevant(store, Some(path));
    let ghost all = rows.deep_view();
    let total: usize = rows.len();
    if rows.len() > INVARIANT_CAP {
        rows.truncate(INVARIANT_CAP);
    }
    assert(rows.deep_view() =~= all.take(rows.len() as int));
    let elided: usize = total - rows.len();
    (rows, elided)
}

/// Summarises the decisions anchored at a file or anywhere under a directory. The path
/// is taken from `cwd`, so `.` means that directory, and from the root the whole
/// workspace.
pub fn run(store: &Store, workspace: &Workspace, cwd: &str, args: &ContextArgs) -> (r: ContextEnvelope)
    requires
        store.wf(),
    ensures
        ({
            let path = paths::relative_to(workspace.root@, cwd@, args.path@);
            let pairs = live_pairs(store@, path, args.include_superseded);
            let limit = args.limit as nat;
            let budget = args.budget as nat;
            &&& r.query.kind@ == "context"@
            &&& r.query.path@ == path
            &&& r.query.mode@ == (if rolls_up(args.flat, args.rollup, pairs) {
                "rollup"@
            } else {
                "flat"@
            })
            &&& r.truncated == (r.elided > 0)
            &&& match r.results {
                ContextRows::Rollup(shown) => {
                    let files = files_of(pairs);
                    let rows = rollups_of(store@, pairs, files, width_for(budget, files.len()));
                    &&& rolls_up(args.flat, args.rollup, pairs)
                    &&& is_page(rollup_costs(rows), limit, budget, shown@.len() as int)
                    &&& shown.deep_view() == rows.take(shown@.len() as int)
                    &&& r.elided == files.len() - shown@.len()
                },
                ContextRows::Flat(shown) => {
                    let ids = decisions_of(pairs);
                    let live = live_ids(store@, ids, args.include_superseded);
                    let rows = candidate_rows(store@, ids, args.include_superseded, budget);
                    &&& !rolls_up(args.flat, args.rollup, pairs)
                    &&& is_page(costs_of(rows), limit, budget, shown@.len() as int)
                    &&& shown.deep_view() == rows.take(shown@.len() as int)
                    &&& r.elided == live.len() - shown@.len()
                },
            }
            &&& args.no_invariants ==> r.invariants is None && r.invariants_elided == 0
            &&& !args.no_invariants ==> (r.invariants matches Some(listed) && ({
                let all = in_effect(store@, Some(path));
                let n = if all.len() < INVARIANT_CAP {
                    all.len() as int
                } else {
                    INVARIANT_CAP as int
                };
                listed.deep_view() == all.take(n) && r.invariants_elided == all.len() - n
            }))
        }),
{
    let path = workspace.relativize(cwd, args.path.as_str());
    let pairs = pairs_in_scope(store, path.as_str(), args.include_superseded);
    let rollup = wants_rollup(args, &pairs);
    let (results, truncated, elided) = if rollup {
        let (rows, truncated, elided) = collect_rollup(store, &pairs, args.limit, args.budget);
        (ContextRows::Rollup(rows), truncated, elided)
    } else {
        let ids = distinct(&pairs, false);
        let (rows, truncated, elided) = collect(
            store,
            &ids,
            args.include_superseded,
            args.limit,
            args.budget,
        );
        (ContextRows::Flat(rows), truncated, elided)
    };
    let (invariants, invariants_elided) = if args.no_invariants {
        (None, 0)
    } else {
        let (rows, more) = invariants_for(store, path.as_str());
        (Some(rows), more)
    };
    ContextEnvelope {
        query: ContextDesc {
            kind: "context",
            path,
            mode: if rollup {
                "rollup"
            } else {
                "flat"
            },
        },
        results,
        invariants,
        invariants_elided,
        truncated,
        elided,
    }
}

/// A pair of a file and a decision is in scope where the file lies at the path or under
/// it, the decision has an anchor on it, and nothing supersedes the decision, unless
/// superseded ones are asked for. Each pair once, newest decision first.
pub proof fn pairs_in_scope_are_anchored(
    log: Log,
    path: Seq<char>,
    include_superseded: bool,
    pair: (Seq<char>, Seq<char>),
)
    requires
        log.ordered(),
    ensures
        live_pairs(log, path, include_superseded).contains(pair) <==> lies_under(pair.0, path) && (exists|
            d: StoredDecisionView,
            a: AnchorView,
        |
            #![trigger log.decisions.contains(d), d.anchors.contains(a)]
            log.decisions.contains(d) && d.id == pair.1 && d.anchors.contains(a) && a.file == pair.0) && (
        include_superseded || !exists|e: StoredDecisionView| #[trigger]
            log.decisions.contains(e) && e.supersedes == Some(pair.1)),
        falling(live_pairs(log, path, include_superseded)),
{
    let all = pairs_under(log.decisions, path);
    let p = |x: (Seq<char>, Seq<char>)| include_superseded || !log.is_superseded(x.1);
    let r = |x: (Seq<char>, Seq<char>), y: (Seq<char>, Seq<char>)| x != y && !text::lex_lt(x.1, y.1);
    pairs_are_anchored(log.decisions, path, pair);
    superseded_by_name(log, pair.1);
    assert forall|i: int, j: int| 0 <= i < j < all.len() implies r(#[trigger] all[i], #[trigger] all[j]) by {}
    selecting_keeps_order(all, p, r);
    let kept = live_pairs(log, path, include_superseded);
    assert forall|i: int, j: int|
        #![trigger kept[i], kept[j]]
        0 <= i < j < kept.len() implies kept[i] != kept[j] && !text::lex_lt(kept[i].1, kept[j].1) by {
        assert(r(kept[i], kept[j]));
    }
}

/// Each pair once, and no decision before a later one.
pub open spec fn falling(pairs: Seq<(Seq<char>, Seq<char>)>) -> bool {
    forall|i: int, j: int|
        #![trigger pairs[i], pairs[j]]
        0 <= i < j < pairs.len() ==> pairs[i] != pairs[j] && !text::lex_lt(pairs[i].1, pairs[j].1)
}

/// The decisions of the pairs are listed each once, newest first; the files each once.
pub proof fn firsts_of_pairs(pairs: Seq<(Seq<char>, Seq<char>)>, x: Seq<char>)
    requires
        falling(pairs),
    ensures
        decisions_of(pairs).contains(x) <==> exists|k: int| 0 <= k < pairs.len() && (#[trigger] pairs[k]).1 == x,
        newest_first(decisions_of(pairs)),
        files_of(pairs).contains(x) <==> exists|k: int| 0 <= k < pairs.len() && (#[trigger] pairs[k]).0 == x,
        files_of(pairs).no_duplicates(),
{
    let ids = pairs.map_values(|pair: (Seq<char>, Seq<char>)| pair.1);
    let files = pairs.map_values(|pair: (Seq<char>, Seq<char>)| pair.0);
    firsts_are_there(ids, x);
    firsts_are_there(files, x);
    assert forall|i: int, j: int| 0 <= i < j < ids.len() implies !text::lex_lt(
        #[trigger] ids[i],
        #[trigger] ids[j],
    ) by {
        assert(pairs[i] != pairs[j]);
    }
    firsts_fall(ids);
    if ids.contains(x) {
        assert(pairs[ids.index_of(x)].1 == x);
    }
    if files.contains(x) {
        assert(pairs[files.index_of(x)].0 == x);
    }
    if exists|k: int| 0 <= k < pairs.len() && (#[trigger] pairs[k]).1 == x {
        let k = choose|k: int| 0 <= k < pairs.len() && (#[trigger] pairs[k]).1 == x;
        assert(ids[k] == x);
    }
    if exists|k: int| 0 <= k < pairs.len() && (#[trigger] pairs[k]).0 == x {
        let k = choose|k: int| 0 <= k < pairs.len() && (#[trigger] pairs[k]).0 == x;
        assert(files[k] == x);
    }
}

proof fn firsts_fall(s: Seq<Seq<char>>)
    requires
        forall|i: int, j: int| 0 <= i < j < s.len() ==> !text::lex_lt(#[trigger] s[i], #[trigger] s[j]),
    ensures
        newest_first(firsts(s)),
    decreases s.len(),
{
    if s.len() > 0 {
        let front = s.drop_last();
        let out = firsts(front);
        let all = firsts(s);
        assert forall|i: int, j: int| 0 <= i < j < front.len() implies !text::lex_lt(
            #[trigger] front[i],
            #[trigger] front[j],
        ) by {
            assert(!text::lex_lt(s[i], s[j]));
        }
        firsts_fall(front);
        assert forall|i: int, j: int| 0 <= i < j < all.len() implies text::lex_lt(
            #[trigger] all[j],
            #[trigger] all[i],
        ) by {
            if j < out.len() {
                assert(all[i] == out[i] && all[j] == out[j]);
            } else {
                assert(all[i] == out[i]);
                assert(out.contains(out[i]));
                firsts_are_there(front, out[i]);
                let k = front.index_of(out[i]);
                assert(!text::lex_lt(s[k], s[s.len() - 1]));
                text::lex_lt_total(all[i], all[j]);
            }
        }
    }
}

/// A path is rolled up where that is asked for, and otherwise where its decisions sit in
/// more than one file; never where a flat list is asked for.
pub proof fn rollup_groups_files(flat: bool, rollup: bool, pairs: Seq<(Seq<char>, Seq<char>)>)
    ensures
        rolls_up(flat, rollup, pairs) <==> !flat && (rollup || exists|i: int, j: int|
            0 <= i < j < pairs.len() && (#[trigger] pairs[i]).0 != (#[trigger] pairs[j]).0),
{
    if exists|i: int, j: int| 0 <= i < j < pairs.len() && (#[trigger] pairs[i]).0 != (#[trigger] pairs[j]).0 {
        let (i, j) = choose|i: int, j: int|
            0 <= i < j < pairs.len() && (#[trigger] pairs[i]).0 != (#[trigger] pairs[j]).0;
        assert(pairs[i].0 != pairs[0].0 || pairs[j].0 != pairs[0].0);
    }
    if exists|i: int| 0 <= i < pairs.len() && (#[trigger] pairs[i]).0 != pairs[0].0 {
        let i = choose|i: int| 0 <= i < pairs.len() && (#[trigger] pairs[i]).0 != pairs[0].0;
        assert(pairs[0].0 != pairs[i].0 && 0 < i);
    }
}

proof fn pairs_of_is_filter(
    pairs: Seq<(Seq<char>, Seq<char>)>,
    file: Seq<char>,
    p: spec_fn((Seq<char>, Seq<char>)) -> bool,
)
    requires
        forall|x: (Seq<char>, Seq<char>)| #[trigger] p(x) == (x.0 == file),
    ensures
        pairs_of(pairs, file) == pairs.filter(p),
    decreases pairs.len(),
{
    reveal(Seq::filter);
    if pairs.len() > 0 {
        pairs_of_is_filter(pairs.drop_last(), file, p);
        assert(p(pairs.last()) == (pairs.last().0 == file));
    }
}

/// The pairs of a file are those that name it, in their order.
pub proof fn pairs_of_a_file(pairs: Seq<(Seq<char>, Seq<char>)>, file: Seq<char>, one: (Seq<char>, Seq<char>))
    requires
        falling(pairs),
    ensures
        pairs_of(pairs, file).contains(one) <==> pairs.contains(one) && one.0 == file,
        falling(pairs_of(pairs, file)),
        pairs_of(pairs, file).no_duplicates(),
{
    let p = |pair: (Seq<char>, Seq<char>)| pair.0 == file;
    let r = |x: (Seq<char>, Seq<char>), y: (Seq<char>, Seq<char>)| x != y && !text::lex_lt(x.1, y.1);
    pairs_of_is_filter(pairs, file, p);
    assert forall|i: int, j: int| 0 <= i < j < pairs.len() implies r(#[trigger] pairs[i], #[trigger] pairs[j]) by {}
    selecting_keeps_order(pairs, p, r);
    let own = pairs_of(pairs, file);
    assert forall|i: int, j: int|
        #![trigger own[i], own[j]]
        0 <= i < j < own.len() implies own[i] != own[j] && !text::lex_lt(own[i].1, own[j].1) by {
        assert(r(own[i], own[j]));
    }
    assert forall|i: int, j: int| 0 <= i < own.len() && 0 <= j < own.len() && i != j implies own[i] != own[j] by {
        if i < j {
            assert(own[i] != own[j]);
        } else {
            assert(own[j] != own[i]);
        }
    }
}

/// The rollup of a file tells how many decisions it has, and of the newest of them.
pub open spec fn tells_file(
    log: Log,
    pairs: Seq<(Seq<char>, Seq<char>)>,
    row: FileRollupView,
    width: nat,
) -> bool {
    &&& row.count == pairs_of(pairs, row.file).len() as usize
    &&& tells(log, row.latest, width)
    &&& pairs.contains((row.file, row.latest.id))
    &&& forall|id: Seq<char>| #[trigger] pairs.contains((row.file, id)) ==> !text::lex_lt(row.latest.id, id)
}

/// A rollup has one row for each file, in their order, and each tells of its file.
pub proof fn rollups_tell_files(
    log: Log,
    pairs: Seq<(Seq<char>, Seq<char>)>,
    files: Seq<Seq<char>>,
    width: nat,
    i: int,
)
    requires
        log.ordered(),
        falling(pairs),
        forall|k: int| 0 <= k < pairs.len() ==> holds(log.decisions, (#[trigger] pairs[k]).1),
        forall|k: int| 0 <= k < files.len() ==> files_of(pairs).contains(#[trigger] files[k]),
        0 <= i < files.len(),
    ensures
        rollups_of(log, pairs, files, width).len() == files.len(),
        rollups_of(log, pairs, files, width)[i].file == files[i],
        tells_file(log, pairs, rollups_of(log, pairs, files, width)[i], width),
    decreases files.len(),
{
    let front = files.drop_last();
    let last = files.last();
    let rows = rollups_of(log, pairs, files, width);
    let some = rollups_of(log, pairs, front, width);
    assert forall|k: int| 0 <= k < front.len() implies files_of(pairs).contains(#[trigger] front[k]) by {
        assert(files_of(pairs).contains(files[k]));
    }
    if front.len() > 0 {
        rollups_tell_files(log, pairs, front, width, if i < front.len() {
            i
        } else {
            0
        });
    } else {
        assert(some =~= Seq::<FileRollupView>::empty());
    }
    assert(files_of(pairs).contains(files[files.len() - 1]));
    file_has_a_pair(pairs, last);
    let own = pairs_of(pairs, last);
    assert(own.contains(own[0]));
    pairs_of_a_file(pairs, last, own[0]);
    let k = pairs.index_of(own[0]);
    assert(holds(log.decisions, pairs[k].1));
    lookup_sound(log.decisions, own[0].1);
    let d = lookup(log.decisions, own[0].1)->0;
    row_tells(log, d, width);
    assert(rows.len() == files.len());
    if i < front.len() {
        assert(rows[i] == some[i]);
        assert(files[i] == front[i]);
    } else {
        assert(own[0] == (last, d.id));
        assert forall|id: Seq<char>| #[trigger] pairs.contains((last, id)) implies !text::lex_lt(d.id, id) by {
            pairs_of_a_file(pairs, last, (last, id));
            let m = own.index_of((last, id));
            if m == 0 {
                text::lex_lt_irreflexive(id);
            } else {
                assert(own[0] != own[m]);
            }
        }
    }
}

/// At most 20 invariants are listed.
pub proof fn listed_invariants_are_capped()
    ensures
        INVARIANT_CAP == 20,
{
}

/// First occurrences come in the order of occurring, and each is the first of its text.
pub proof fn firsts_in_order(s: Seq<Seq<char>>) -> (at: Seq<int>)
    ensures
        at.len() == firsts(s).len(),
        forall|i: int| 0 <= i < at.len() ==> is_first_at(s, firsts(s)[i], #[trigger] at[i]),
        forall|i: int, j: int| 0 <= i < j < at.len() ==> #[trigger] at[i] < #[trigger] at[j],
    decreases s.len(),
{
    if s.len() == 0 {
        Seq::empty()
    } else {
        let front = s.drop_last();
        let some = firsts_in_order(front);
        let out = firsts(front);
        firsts_are_there(front, s.last());
        assert forall|i: int| 0 <= i < some.len() implies is_first_at(s, out[i], #[trigger] some[i]) by {
            assert(is_first_at(front, out[i], some[i]));
            assert forall|k: int| 0 <= k < some[i] implies #[trigger] s[k] != out[i] by {
                assert(front[k] == s[k]);
            }
        }
        if out.contains(s.last()) {
            some
        } else {
            let n = s.len() - 1;
            let at = some.push(n);
            assert(is_first_at(s, s.last(), n)) by {
                assert forall|k: int| 0 <= k < n implies #[trigger] s[k] != s.last() by {
                    assert(front[k] == s[k]);
                    assert(front.contains(front[k]));
                }
            }
            assert forall|i: int| 0 <= i < at.len() implies is_first_at(s, firsts(s)[i], #[trigger] at[i]) by {
                if i < some.len() {
                    assert(firsts(s)[i] == out[i]);
                }
            }
            at
        }
    }
}

/// A text stands at this position, and nowhere before it.
pub open spec fn is_first_at(s: Seq<Seq<char>>, x: Seq<char>, k: int) -> bool {
    0 <= k < s.len() && s[k] == x && forall|j: int| 0 <= j < k ==> #[trigger] s[j] != x
}

/// The files of a rollup come in the order in which the pairs first name them, so that the
/// file of the newest decision is first.
pub proof fn files_in_order(pairs: Seq<(Seq<char>, Seq<char>)>) -> (at: Seq<int>)
    ensures
        at.len() == files_of(pairs).len(),
        forall|i: int|
            0 <= i < at.len() ==> 0 <= #[trigger] at[i] < pairs.len() && pairs[at[i]].0 == files_of(pairs)[i],
        forall|i: int, k: int|
            0 <= i < at.len() && 0 <= k < #[trigger] at[i] ==> (#[trigger] pairs[k]).0 != files_of(pairs)[i],
        forall|i: int, j: int| 0 <= i < j < at.len() ==> #[trigger] at[i] < #[trigger] at[j],
{
    let names = pairs.map_values(|pair: (Seq<char>, Seq<char>)| pair.0);
    let at = firsts_in_order(names);
    assert forall|i: int| 0 <= i < at.len() implies 0 <= #[trigger] at[i] < pairs.len() && pairs[at[i]].0
        == files_of(pairs)[i] by {
        assert(is_first_at(names, firsts(names)[i], at[i]));
    }
    assert forall|i: int, k: int| 0 <= i < at.len() && 0 <= k < #[trigger] at[i] implies (#[trigger] pairs[k]).0
        != files_of(pairs)[i] by {
        assert(is_first_at(names, firsts(names)[i], at[i]));
        assert(names[k] == pairs[k].0);
    }
    at
}

} // verus!
