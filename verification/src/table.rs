//! Tables: rows in ascending order of a unique text key.
use crate::text;
use crate::text::lex_lt;
use vstd::prelude::*;

verus! {

/// A row's value, found by its key.
pub trait Keyed {
    spec fn key(&self) -> Seq<char>;
}

/// A stored row: it gives out its key and a copy of itself.
pub trait Row: DeepView + Sized where <Self as DeepView>::V: Keyed {
    fn id(&self) -> (r: &String)
        ensures
            r@ == self.deep_view().key(),
    ;

    fn copy(&self) -> (r: Self)
        ensures
            r.deep_view() == self.deep_view(),
    ;
}

/// Strictly ascending keys: every key occurs once.
pub open spec fn ascending<V: Keyed>(s: Seq<V>) -> bool {
    forall|i: int, j: int| 0 <= i < j < s.len() ==> lex_lt(#[trigger] s[i].key(), #[trigger] s[j].key())
}

/// Some row has the key `id`.
pub open spec fn holds<V: Keyed>(s: Seq<V>, id: Seq<char>) -> bool {
    exists|i: int| 0 <= i < s.len() && #[trigger] s[i].key() == id
}

/// The row with the key `id`.
pub open spec fn lookup<V: Keyed>(s: Seq<V>, id: Seq<char>) -> Option<V> {
    if holds(s, id) {
        Some(s[choose|i: int| 0 <= i < s.len() && #[trigger] s[i].key() == id])
    } else {
        None
    }
}

/// `s` with the row `v` put in its place.
pub open spec fn insert_row<V: Keyed>(s: Seq<V>, v: V) -> Seq<V>
    decreases s.len(),
{
    if s.len() == 0 {
        seq![v]
    } else if lex_lt(s.last().key(), v.key()) {
        s.push(v)
    } else {
        insert_row(s.drop_last(), v).push(s.last())
    }
}

/// The keys of the rows.
pub open spec fn keys<V: Keyed>(s: Seq<V>) -> Seq<Seq<char>> {
    s.map_values(|v: V| v.key())
}

/// The keys of the rows that meet `p`, ascending.
pub open spec fn ids_where<V: Keyed>(s: Seq<V>, p: spec_fn(V) -> bool) -> Seq<Seq<char>> {
    keys(s.filter(p))
}

/// In a table no two rows have the same key.
pub proof fn keys_unique<V: Keyed>(s: Seq<V>, i: int, j: int)
    requires
        ascending(s),
        0 <= i < s.len(),
        0 <= j < s.len(),
        s[i].key() == s[j].key(),
    ensures
        i == j,
{
    text::lex_lt_irreflexive(s[i].key());
    if i < j {
        assert(lex_lt(s[i].key(), s[j].key()));
    } else if j < i {
        assert(lex_lt(s[j].key(), s[i].key()));
    }
}

/// The row at `i` is the one its key finds.
pub proof fn lookup_at<V: Keyed>(s: Seq<V>, i: int)
    requires
        ascending(s),
        0 <= i < s.len(),
    ensures
        holds(s, s[i].key()),
        lookup(s, s[i].key()) == Some(s[i]),
{
    let k = choose|k: int| 0 <= k < s.len() && #[trigger] s[k].key() == s[i].key();
    assert(s[i].key() == s[i].key());
    keys_unique(s, i, k);
}

/// What `lookup` finds stands in the table under that key.
pub proof fn lookup_sound<V: Keyed>(s: Seq<V>, id: Seq<char>)
    ensures
        lookup(s, id) matches Some(v) ==> v.key() == id && s.contains(v),
        lookup(s, id) is Some <==> holds(s, id),
{
    if holds(s, id) {
        let k = choose|k: int| 0 <= k < s.len() && #[trigger] s[k].key() == id;
        assert(s[k].key() == id);
        assert(s.contains(s[k]));
    }
}

/// Putting a row in place keeps the order and adds that row alone.
pub proof fn insert_row_keeps<V: Keyed>(s: Seq<V>, v: V)
    requires
        ascending(s),
        !holds(s, v.key()),
    ensures
        ascending(insert_row(s, v)),
        insert_row(s, v).len() == s.len() + 1,
        forall|x: V| #[trigger] insert_row(s, v).contains(x) <==> s.contains(x) || x == v,
        forall|id: Seq<char>| #[trigger] holds(insert_row(s, v), id) <==> holds(s, id) || id == v.key(),
    decreases s.len(),
{
    let r = insert_row(s, v);
    if s.len() == 0 {
        assert(r[0] == v);
        assert(r.contains(v));
    } else if lex_lt(s.last().key(), v.key()) {
        assert forall|i: int, j: int| 0 <= i < j < r.len() implies lex_lt(
            #[trigger] r[i].key(),
            #[trigger] r[j].key(),
        ) by {
            if j == s.len() && i < s.len() - 1 {
                assert(lex_lt(s[i].key(), s.last().key()));
                text::lex_lt_transitive(s[i].key(), s.last().key(), v.key());
            } else if j < s.len() {
                assert(lex_lt(s[i].key(), s[j].key()));
            }
        }
        assert forall|x: V| #[trigger] r.contains(x) <==> s.contains(x) || x == v by {
            if s.contains(x) {
                let k = s.index_of(x);
                assert(r[k] == x);
            }
            assert(r[s.len() as int] == v);
        }
    } else {
        let t = s.drop_last();
        assert(ascending(t)) by {
            assert forall|i: int, j: int| 0 <= i < j < t.len() implies lex_lt(
                #[trigger] t[i].key(),
                #[trigger] t[j].key(),
            ) by {
                assert(lex_lt(s[i].key(), s[j].key()));
            }
        }
        assert(!holds(t, v.key())) by {
            if holds(t, v.key()) {
                let k = choose|k: int| 0 <= k < t.len() && #[trigger] t[k].key() == v.key();
                assert(s[k].key() == v.key());
            }
        }
        insert_row_keeps(t, v);
        let u = insert_row(t, v);
        text::lex_lt_total(s.last().key(), v.key());
        assert(s[s.len() - 1].key() != v.key());
        assert forall|i: int, j: int| 0 <= i < j < r.len() implies lex_lt(
            #[trigger] r[i].key(),
            #[trigger] r[j].key(),
        ) by {
            if j == u.len() {
                assert(u.contains(u[i]));
                if u[i] != v {
                    assert(t.contains(u[i]));
                    let k = t.index_of(u[i]);
                    assert(s[k] == u[i]);
                    assert(lex_lt(s[k].key(), s[s.len() - 1].key()));
                }
            } else {
                assert(lex_lt(u[i].key(), u[j].key()));
            }
        }
        assert forall|x: V| #[trigger] r.contains(x) <==> s.contains(x) || x == v by {
            if r.contains(x) {
                let k = r.index_of(x);
                if k < u.len() {
                    assert(u.contains(x));
                    if x != v {
                        assert(s[t.index_of(x)] == x);
                    }
                } else {
                    assert(s[s.len() - 1] == x);
                }
            }
            if s.contains(x) {
                let k = s.index_of(x);
                if k < t.len() {
                    assert(t[k] == x);
                    assert(u.contains(x));
                    assert(r[u.index_of(x)] == x);
                } else {
                    assert(r[u.len() as int] == x);
                }
            }
            assert(u.contains(v));
            assert(r[u.index_of(v)] == v);
        }
    }
    assert forall|id: Seq<char>| #[trigger] holds(r, id) <==> holds(s, id) || id == v.key() by {
        if holds(r, id) {
            let k = choose|k: int| 0 <= k < r.len() && #[trigger] r[k].key() == id;
            assert(r.contains(r[k]));
            if r[k] != v {
                assert(s[s.index_of(r[k])].key() == id);
            }
        }
        if holds(s, id) {
            let k = choose|k: int| 0 <= k < s.len() && #[trigger] s[k].key() == id;
            assert(s.contains(s[k]));
            assert(r.contains(s[k]));
            assert(r[r.index_of(s[k])].key() == id);
        }
        assert(r.contains(v));
        assert(r[r.index_of(v)].key() == v.key());
    }
}

/// A row that was there is found as before once another is put in place.
pub proof fn insert_row_lookup<V: Keyed>(s: Seq<V>, v: V, id: Seq<char>)
    requires
        ascending(s),
        !holds(s, v.key()),
    ensures
        lookup(insert_row(s, v), id) == (if id == v.key() {
            Some(v)
        } else {
            lookup(s, id)
        }),
{
    insert_row_keeps(s, v);
    let r = insert_row(s, v);
    if id == v.key() {
        assert(r.contains(v));
        lookup_at(r, r.index_of(v));
    } else if holds(s, id) {
        lookup_sound(s, id);
        let w = lookup(s, id)->0;
        assert(r.contains(w));
        lookup_at(r, r.index_of(w));
    } else {
        assert(!holds(r, id));
    }
}

/// The position of the row with the key `id`.
pub fn position<T: Row>(rows: &Vec<T>, id: &str) -> (r: Option<usize>) where
    <T as DeepView>::V: Keyed,

    ensures
        r matches Some(i) ==> i < rows.len() && rows.deep_view()[i as int].key() == id@ && holds(
            rows.deep_view(),
            id@,
        ),
        r is None <==> !holds(rows.deep_view(), id@),
{
    for i in 0..rows.len()
        invariant
            forall|j: int| 0 <= j < i ==> #[trigger] rows.deep_view()[j].key() != id@,
    {
        if text::same(rows[i].id().as_str(), id) {
            assert(rows.deep_view()[i as int].key() == id@);
            return Some(i);
        }
        assert(rows.deep_view()[i as int].key() != id@);
    }
    None
}

/// Whether a row has the key `id`.
pub fn known<T: Row>(rows: &Vec<T>, id: &str) -> (r: bool) where <T as DeepView>::V: Keyed,
    ensures
        r == holds(rows.deep_view(), id@),
{
    position(rows, id).is_some()
}

/// A copy of the row with the key `id`.
pub fn fetch<T: Row>(rows: &Vec<T>, id: &str) -> (r: Option<T>) where <T as DeepView>::V: Keyed,
    requires
        ascending(rows.deep_view()),
    ensures
        r.deep_view() == lookup(rows.deep_view(), id@),
{
    match position(rows, id) {
        Some(i) => {
            proof {
                lookup_at(rows.deep_view(), i as int);
            }
            Some(rows[i].copy())
        },
        None => None,
    }
}

/// Puts a row in its place.
pub fn place<T: Row>(rows: &mut Vec<T>, row: T) where <T as DeepView>::V: Keyed,
    requires
        ascending(old(rows).deep_view()),
        !holds(old(rows).deep_view(), row.deep_view().key()),
    ensures
        final(rows).deep_view() == insert_row(old(rows).deep_view(), row.deep_view()),
        ascending(final(rows).deep_view()),
{
    let ghost s = rows.deep_view();
    let ghost v = row.deep_view();
    proof {
        insert_row_keeps(s, v);
    }
    let mut i: usize = rows.len();
    assert(s.take(s.len() as int) =~= s);
    assert(s.skip(s.len() as int) =~= Seq::empty());
    assert(insert_row(s, v) =~= insert_row(s, v) + Seq::empty());
    while i > 0 && !text::before(rows[i - 1].id().as_str(), row.id().as_str())
        invariant
            i <= rows.len(),
            s == rows.deep_view(),
            v == row.deep_view(),
            insert_row(s, v) == insert_row(s.take(i as int), v) + s.skip(i as int),
        decreases i,
    {
        assert(s.take(i as int).drop_last() =~= s.take(i - 1));
        assert(s.take(i as int).last() == s[i - 1]);
        assert(rows.deep_view()[i - 1] == rows[i - 1].deep_view());
        assert(insert_row(s.take(i - 1), v).push(s[i - 1]) + s.skip(i as int) =~= insert_row(
            s.take(i - 1),
            v,
        ) + s.skip(i - 1));
        i = i - 1;
    }
    assert(i > 0 ==> rows.deep_view()[i - 1] == rows[i - 1].deep_view());
    assert(insert_row(s.take(i as int), v) =~= s.take(i as int).push(v));
    rows.insert(i, row);
    assert(rows.deep_view() =~= s.take(i as int).push(v) + s.skip(i as int));
}

/// The keys of the rows that pass `test`, ascending.
pub(crate) fn select_ids<T: Row, F: Fn(&T) -> bool>(
    rows: &Vec<T>,
    test: F,
    p: Ghost<spec_fn(<T as DeepView>::V) -> bool>,
) -> (r: Vec<String>) where <T as DeepView>::V: Keyed,
    requires
        forall|t: &T| #[trigger] test.requires((t,)),
        forall|t: &T, b: bool| #[trigger] test.ensures((t,), b) ==> b == p@(t.deep_view()),
    ensures
        r.deep_view() == ids_where(rows.deep_view(), p@),
{
    let mut out: Vec<String> = Vec::new();
    let ghost all = rows.deep_view();
    assert(out.deep_view() =~= ids_where(all.take(0), p@));
    for i in 0..rows.len()
        invariant
            all == rows.deep_view(),
            forall|t: &T| #[trigger] test.requires((t,)),
            forall|t: &T, b: bool| #[trigger] test.ensures((t,), b) ==> b == p@(t.deep_view()),
            out.deep_view() == ids_where(all.take(i as int), p@),
    {
        let ghost v = all[i as int];
        assert(all.take(i + 1) =~= all.take(i as int).push(v));
        proof {
            all.take(i as int).lemma_filter_push(v, p@);
        }
        assert(v == rows[i as int].deep_view());
        if test(&rows[i]) {
            let ghost before = out.deep_view();
            let id = rows[i].id().clone();
            out.push(id);
            assert(out.deep_view() =~= before.push(v.key()));
            assert(keys(all.take(i as int).filter(p@).push(v)) =~= keys(
                all.take(i as int).filter(p@),
            ).push(v.key()));
        }
    }
    assert(all.take(all.len() as int) =~= all);
    out
}

/// A list holds `id`.
pub fn listed(list: &Vec<String>, id: &str) -> (r: bool)
    ensures
        r == list.deep_view().contains(id@),
{
    for i in 0..list.len()
        invariant
            forall|j: int| 0 <= j < i ==> list[j]@ != id@,
    {
        if text::same(list[i].as_str(), id) {
            assert(list.deep_view()[i as int] == id@);
            return true;
        }
    }
    assert forall|j: int| 0 <= j < list.deep_view().len() implies list.deep_view()[j] != id@ by {
        assert(list.deep_view()[j] == list[j]@);
    }
    false
}

/// What `make` makes of the rows that pass `test`, in order.
pub(crate) fn gather<T: DeepView, U: DeepView, F: Fn(&T) -> bool, G: Fn(&T) -> U>(
    rows: &Vec<T>,
    test: F,
    make: G,
    p: Ghost<spec_fn(<T as DeepView>::V) -> bool>,
    f: Ghost<spec_fn(<T as DeepView>::V) -> <U as DeepView>::V>,
) -> (r: Vec<U>)
    requires
        forall|t: &T| #[trigger] test.requires((t,)),
        forall|t: &T, b: bool| #[trigger] test.ensures((t,), b) ==> b == p@(t.deep_view()),
        forall|t: &T| #[trigger] make.requires((t,)),
        forall|t: &T, u: U| #[trigger] make.ensures((t,), u) ==> u.deep_view() == f@(t.deep_view()),
    ensures
        r.deep_view() == rows.deep_view().filter(p@).map_values(f@),
{
    let mut out: Vec<U> = Vec::new();
    let ghost all = rows.deep_view();
    assert(all.take(0) =~= Seq::empty());
    proof {
        reveal(Seq::filter);
    }
    assert(out.deep_view() =~= all.take(0).filter(p@).map_values(f@));
    for i in 0..rows.len()
        invariant
            all == rows.deep_view(),
            forall|t: &T| #[trigger] test.requires((t,)),
            forall|t: &T, b: bool| #[trigger] test.ensures((t,), b) ==> b == p@(t.deep_view()),
            forall|t: &T| #[trigger] make.requires((t,)),
            forall|t: &T, u: U| #[trigger]
                make.ensures((t,), u) ==> u.deep_view() == f@(t.deep_view()),
            out.deep_view() == all.take(i as int).filter(p@).map_values(f@),
    {
        let ghost v = all[i as int];
        assert(all.take(i + 1) =~= all.take(i as int).push(v));
        proof {
            all.take(i as int).lemma_filter_push(v, p@);
        }
        assert(v == rows[i as int].deep_view());
        if test(&rows[i]) {
            let ghost before = out.deep_view();
            let made = make(&rows[i]);
            out.push(made);
            assert(out.deep_view() =~= before.push(f@(v)));
            assert(all.take(i as int).filter(p@).push(v).map_values(f@) =~= all.take(
                i as int,
            ).filter(p@).map_values(f@).push(f@(v)));
        }
    }
    assert(all.take(all.len() as int) =~= all);
    out
}

/// The same rows, last first.
pub fn turned<T: DeepView>(list: Vec<T>) -> (r: Vec<T>)
    ensures
        r.deep_view() == list.deep_view().reverse(),
{
    let ghost all = list.deep_view();
    let mut list = list;
    let mut out: Vec<T> = Vec::new();
    assert(all.take(all.len() as int) =~= all);
    assert(out.deep_view() =~= all.skip(all.len() as int).reverse());
    while list.len() > 0
        invariant
            list.len() <= all.len(),
            list.deep_view() == all.take(list.len() as int),
            out.deep_view() == all.skip(list.len() as int).reverse(),
        decreases list.len(),
    {
        let ghost n = list.len();
        let ghost before = list.deep_view();
        let ghost so_far = out.deep_view();
        let last = list.pop();
        if let Some(x) = last {
            assert(before[n - 1] == x.deep_view());
            out.push(x);
            assert(out.deep_view() =~= so_far.push(all[n - 1]));
        }
        assert(list.deep_view() =~= all.take(n - 1));
        assert(out.deep_view() =~= all.skip(n - 1).reverse());
    }
    assert(all.skip(0) =~= all);
    out
}

impl Keyed for Seq<char> {
    open spec fn key(&self) -> Seq<char> {
        *self
    }
}

impl Row for String {
    fn id(&self) -> (r: &String) {
        self
    }

    fn copy(&self) -> (r: Self) {
        self.clone()
    }
}

/// Adds a text to an ascending list, unless it is there already.
pub fn add_text(list: &mut Vec<String>, s: &str)
    requires
        ascending(old(list).deep_view()),
    ensures
        ascending(final(list).deep_view()),
        forall|x: Seq<char>| #[trigger]
            final(list).deep_view().contains(x) <==> old(list).deep_view().contains(x) || x == s@,
{
    let ghost before = list.deep_view();
    if !known(list, s) {
        proof {
            insert_row_keeps(before, s@);
        }
        place(list, text::owned(s));
    } else {
        assert(exists|k: int| 0 <= k < before.len() && #[trigger] before[k].key() == s@);
        assert(before.contains(s@));
    }
}

} // verus!
