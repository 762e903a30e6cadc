//! What the structural hash does not see: names, the text of comments, comments
//! themselves, and where anything stands.
use crate::anchor::{hash_input, hash_of, is_name, is_remark, params_from, shape, tokens};
use crate::syntax::{
    child_by_field, end_of, field_from, is_leaf, row_text, run_end,
    run_end_bounds, LangSupport, SyntaxRowView,
};
use vstd::prelude::*;

verus! {

// ---- Names and places -------------------------------------------------------

/// Two trees of the same structure: node for node the same depth, field and kind.
pub open spec fn same_structure(a: Seq<SyntaxRowView>, b: Seq<SyntaxRowView>) -> bool {
    a.len() == b.len() && forall|i: int|
        0 <= i < a.len() ==> (#[trigger] a[i]).depth == b[i].depth && a[i].field == b[i].field && a[i].kind
            == b[i].kind && a[i].named == b[i].named
}

/// Node `k` lies in a comment that starts at or after node `i`.
pub open spec fn in_remark(lang: LangSupport, rows: Seq<SyntaxRowView>, i: int, k: int) -> bool {
    exists|c: int| i <= c <= k && is_remark(lang, (#[trigger] rows[c]).kind) && k < end_of(rows, c)
}

/// Every leaf from node `i` on that is neither a name nor in a comment has the same text
/// in both trees.
pub open spec fn same_words(
    lang: LangSupport,
    a: Seq<SyntaxRowView>,
    s: Seq<char>,
    b: Seq<SyntaxRowView>,
    t: Seq<char>,
    i: int,
) -> bool {
    forall|k: int|
        i <= k < a.len() && is_leaf(a, k) && !is_name(lang, (#[trigger] a[k]).kind) && !in_remark(
            lang,
            a,
            i,
            k,
        ) ==> row_text(s, a[k]) == row_text(t, b[k])
}

proof fn run_end_same(a: Seq<SyntaxRowView>, b: Seq<SyntaxRowView>, j: int, depth: u32)
    requires
        same_structure(a, b),
        0 <= j,
    ensures
        run_end(a, j, depth) == run_end(b, j, depth),
    decreases a.len() - j,
{
    if j < a.len() && a[j].depth > depth {
        run_end_same(a, b, j + 1, depth);
    }
}

proof fn field_from_same(
    a: Seq<SyntaxRowView>,
    b: Seq<SyntaxRowView>,
    j: int,
    end: int,
    depth: u32,
    field: Seq<char>,
)
    requires
        same_structure(a, b),
        0 <= j,
        end <= a.len(),
    ensures
        field_from(a, j, end, depth, field) == field_from(b, j, end, depth, field),
    decreases end - j,
{
    if j < end {
        assert(a[j].depth == b[j].depth && a[j].field == b[j].field);
        field_from_same(a, b, j + 1, end, depth, field);
    }
}

proof fn params_same(
    lang: LangSupport,
    a: Seq<SyntaxRowView>,
    b: Seq<SyntaxRowView>,
    j: int,
    end: int,
    depth: u32,
)
    requires
        same_structure(a, b),
        0 <= j,
        end <= a.len(),
    ensures
        params_from(lang, a, j, end, depth) == params_from(lang, b, j, end, depth),
    decreases end - j,
{
    if j < end {
        assert(a[j].depth == b[j].depth && a[j].named == b[j].named);
        params_same(lang, a, b, j + 1, end, depth);
    }
}

proof fn child_same(a: Seq<SyntaxRowView>, b: Seq<SyntaxRowView>, i: int, field: Seq<char>)
    requires
        same_structure(a, b),
        0 <= i < a.len(),
    ensures
        child_by_field(a, i, field) == child_by_field(b, i, field),
        child_by_field(a, i, field) matches Some(c) ==> i < c < a.len(),
{
    assert(a[i].depth == b[i].depth);
    run_end_same(a, b, i + 1, a[i].depth);
    run_end_bounds(a, i + 1, a[i].depth);
    field_from_same(a, b, i + 1, end_of(a, i), a[i].depth, field);
    field_from_bounds(a, i + 1, end_of(a, i), a[i].depth, field);
}

proof fn field_from_bounds(rows: Seq<SyntaxRowView>, j: int, end: int, depth: u32, field: Seq<char>)
    ensures
        field_from(rows, j, end, depth, field) matches Some(c) ==> j <= c < end && rows[c].depth == depth
            + 1 && rows[c].field == Some(field),
    decreases end - j,
{
    if j < end {
        field_from_bounds(rows, j + 1, end, depth, field);
    }
}

proof fn shape_same(lang: LangSupport, a: Seq<SyntaxRowView>, b: Seq<SyntaxRowView>, i: int)
    requires
        same_structure(a, b),
        0 <= i < a.len(),
    ensures
        shape(lang, a, i) == shape(lang, b, i),
{
    child_same(a, b, i, "parameters"@);
    child_same(a, b, i, "return_type"@);
    child_same(a, b, i, "result"@);
    if let Some(p) = child_by_field(a, i, "parameters"@) {
        assert(a[p].depth == b[p].depth);
        run_end_same(a, b, p + 1, a[p].depth);
        run_end_bounds(a, p + 1, a[p].depth);
        params_same(lang, a, b, p + 1, end_of(a, p), a[p].depth);
    }
}

/// A run ends no later than at the first row that is not deeper.
proof fn run_ends_by(rows: Seq<SyntaxRowView>, j: int, depth: u32, e: int)
    requires
        0 <= j <= e <= rows.len(),
        e == rows.len() || rows[e].depth <= depth,
    ensures
        run_end(rows, j, depth) <= e,
    decreases e - j,
{
    if j < e && rows[j].depth > depth {
        run_ends_by(rows, j + 1, depth, e);
    }
}

/// Where a run ends, the next row is not deeper.
proof fn run_end_stops(rows: Seq<SyntaxRowView>, j: int, depth: u32)
    requires
        0 <= j <= rows.len(),
    ensures
        j <= run_end(rows, j, depth) <= rows.len(),
        run_end(rows, j, depth) < rows.len() ==> rows[run_end(rows, j, depth)].depth <= depth,
    decreases rows.len() - j,
{
    if j < rows.len() && rows[j].depth > depth {
        run_end_stops(rows, j + 1, depth);
    }
}

/// A node inside a subtree has its own subtree inside.
proof fn nested_end(rows: Seq<SyntaxRowView>, j: int, c: int)
    requires
        0 <= j < c < end_of(rows, j),
        end_of(rows, j) <= rows.len(),
    ensures
        end_of(rows, c) <= end_of(rows, j),
{
    run_end_bounds(rows, j + 1, rows[j].depth);
    run_end_stops(rows, j + 1, rows[j].depth);
    run_ends_by(rows, c + 1, rows[c].depth, end_of(rows, j));
}

proof fn tokens_same(
    lang: LangSupport,
    a: Seq<SyntaxRowView>,
    s: Seq<char>,
    b: Seq<SyntaxRowView>,
    t: Seq<char>,
    i: int,
    j: int,
    end: int,
)
    requires
        same_structure(a, b),
        same_words(lang, a, s, b, t, i),
        0 <= i <= j,
        end <= a.len(),
        forall|c: int| i <= c < j && is_remark(lang, (#[trigger] a[c]).kind) ==> end_of(a, c) <= j,
    ensures
        tokens(lang, a, s, j, end) == tokens(lang, b, t, j, end),
    decreases
        (if j < end {
            end - j
        } else {
            0
        }),
{
    if j < end {
        assert(a[j].kind == b[j].kind && a[j].depth == b[j].depth);
        run_end_same(a, b, j + 1, a[j].depth);
        run_end_bounds(a, j + 1, a[j].depth);
        if is_remark(lang, a[j].kind) {
            let e = end_of(a, j);
            assert forall|c: int| i <= c < e && is_remark(lang, (#[trigger] a[c]).kind) implies end_of(a, c)
                <= e by {
                if c > j {
                    nested_end(a, j, c);
                }
            }
            tokens_same(lang, a, s, b, t, i, e, end);
        } else {
            if is_leaf(a, j) && !is_name(lang, a[j].kind) {
                assert(!in_remark(lang, a, i, j)) by {
                    if in_remark(lang, a, i, j) {
                        let c = choose|c: int|
                            i <= c <= j && is_remark(lang, (#[trigger] a[c]).kind) && j < end_of(a, c);
                        assert(is_remark(lang, a[c].kind));
                    }
                }
            }
            tokens_same(lang, a, s, b, t, i, j + 1, end);
        }
    }
}

/// Names, the words of comments and the place of anything leave the hash as it is: two
/// nodes of the same structure whose other words agree have the same hash.
pub proof fn hash_ignores_names(
    lang: LangSupport,
    a: Seq<SyntaxRowView>,
    s: Seq<char>,
    b: Seq<SyntaxRowView>,
    t: Seq<char>,
    i: int,
)
    requires
        same_structure(a, b),
        same_words(lang, a, s, b, t, i),
        0 <= i < a.len(),
    ensures
        hash_of(lang, a, s, i) == hash_of(lang, b, t, i),
{
    shape_same(lang, a, b, i);
    assert(a[i].kind == b[i].kind && a[i].depth == b[i].depth);
    run_end_same(a, b, i + 1, a[i].depth);
    run_end_bounds(a, i + 1, a[i].depth);
    tokens_same(lang, a, s, b, t, i, i, end_of(a, i));
    assert(hash_input(lang, a, s, i) == hash_input(lang, b, t, i));
}

// ---- Comments ---------------------------------------------------------------

/// The tree without the subtree of node `a`.
pub open spec fn without(rows: Seq<SyntaxRowView>, a: int) -> Seq<SyntaxRowView> {
    rows.take(a) + rows.skip(end_of(rows, a))
}

/// Where a row goes when the subtree of `a` is taken out.
spec fn moved(rows: Seq<SyntaxRowView>, a: int, x: int) -> int {
    if x <= a {
        x
    } else {
        x - (end_of(rows, a) - a)
    }
}

proof fn run_end_shift(rows: Seq<SyntaxRowView>, a: int, j: int, depth: u32)
    requires
        0 <= a < rows.len(),
        end_of(rows, a) <= j <= rows.len(),
        a < end_of(rows, a) <= rows.len(),
    ensures
        run_end(without(rows, a), j - (end_of(rows, a) - a), depth) == run_end(rows, j, depth) - (end_of(
            rows,
            a,
        ) - a),
    decreases rows.len() - j,
{
    let q = without(rows, a);
    let n = end_of(rows, a) - a;
    if j < rows.len() {
        assert(q[j - n] == rows[j]);
        if rows[j].depth > depth {
            run_end_shift(rows, a, j + 1, depth);
        }
    }
}

/// A run goes on through rows that are deeper.
proof fn run_end_skips(rows: Seq<SyntaxRowView>, j: int, k: int, depth: u32)
    requires
        0 <= j <= k <= rows.len(),
        forall|x: int| j <= x < k ==> (#[trigger] rows[x]).depth > depth,
    ensures
        run_end(rows, j, depth) == run_end(rows, k, depth),
    decreases k - j,
{
    if j < k {
        assert(rows[j].depth > depth);
        run_end_skips(rows, j + 1, k, depth);
    }
}

proof fn run_end_cut(rows: Seq<SyntaxRowView>, a: int, j: int, depth: u32)
    requires
        0 <= j <= a < rows.len(),
    ensures
        run_end(without(rows, a), j, depth) == moved(rows, a, run_end(rows, j, depth)),
        run_end(rows, j, depth) <= a || run_end(rows, j, depth) >= end_of(rows, a),
    decreases a - j,
{
    let q = without(rows, a);
    let b = end_of(rows, a);
    run_end_bounds(rows, a + 1, rows[a].depth);
    run_end_stops(rows, a + 1, rows[a].depth);
    if j < a {
        assert(q[j] == rows[j]);
        if rows[j].depth > depth {
            run_end_cut(rows, a, j + 1, depth);
        }
    } else if rows[a].depth <= depth {
        if b < rows.len() {
            assert(q[a] == rows[b]);
        }
    } else {
        run_end_skips(rows, a, b, depth);
        run_end_shift(rows, a, b, depth);
        run_end_bounds(rows, b, depth);
    }
}

proof fn tokens_shift(
    lang: LangSupport,
    rows: Seq<SyntaxRowView>,
    source: Seq<char>,
    a: int,
    j: int,
    end: int,
)
    requires
        0 <= a < rows.len(),
        end_of(rows, a) <= j,
        end <= rows.len(),
    ensures
        tokens(lang, rows, source, j, end) == tokens(
            lang,
            without(rows, a),
            source,
            j - (end_of(rows, a) - a),
            end - (end_of(rows, a) - a),
        ),
    decreases
        (if j < end {
            end - j
        } else {
            0
        }),
{
    let q = without(rows, a);
    let n = end_of(rows, a) - a;
    run_end_bounds(rows, a + 1, rows[a].depth);
    if j < end {
        assert(q[j - n] == rows[j]);
        run_end_shift(rows, a, j + 1, rows[j].depth);
        run_end_bounds(rows, j + 1, rows[j].depth);
        if is_remark(lang, rows[j].kind) {
            tokens_shift(lang, rows, source, a, end_of(rows, j), end);
        } else {
            tokens_shift(lang, rows, source, a, j + 1, end);
        }
    }
}

/// A comment that is not the only thing in its node.
pub open spec fn has_company(rows: Seq<SyntaxRowView>, a: int) -> bool {
    rows[a - 1].depth < rows[a].depth ==> end_of(rows, a - 1) > end_of(rows, a)
}

proof fn tokens_cut(
    lang: LangSupport,
    rows: Seq<SyntaxRowView>,
    source: Seq<char>,
    a: int,
    j: int,
    end: int,
)
    requires
        0 < a < rows.len(),
        is_remark(lang, rows[a].kind),
        has_company(rows, a),
        0 <= j <= a,
        end_of(rows, a) <= end <= rows.len(),
    ensures
        tokens(lang, rows, source, j, end) == tokens(
            lang,
            without(rows, a),
            source,
            j,
            end - (end_of(rows, a) - a),
        ),
    decreases a - j,
{
    let q = without(rows, a);
    let b = end_of(rows, a);
    let n = b - a;
    run_end_bounds(rows, a + 1, rows[a].depth);
    if j == a {
        tokens_shift(lang, rows, source, a, b, end);
    } else {
        assert(q[j] == rows[j]);
        run_end_cut(rows, a, j + 1, rows[j].depth);
        run_end_bounds(rows, j + 1, rows[j].depth);
        let e = end_of(rows, j);
        if is_remark(lang, rows[j].kind) {
            if e <= a {
                tokens_cut(lang, rows, source, a, e, end);
            } else {
                tokens_shift(lang, rows, source, a, e, end);
            }
        } else {
            assert(is_leaf(q, j) == is_leaf(rows, j)) by {
                if e > a && e - n == j + 1 {
                    assert(j == a - 1);
                    assert(rows[a].depth > rows[a - 1].depth);
                }
            }
            tokens_cut(lang, rows, source, a, j + 1, end);
        }
    }
}

proof fn field_from_shift(
    rows: Seq<SyntaxRowView>,
    a: int,
    j: int,
    end: int,
    depth: u32,
    field: Seq<char>,
)
    requires
        0 <= a < rows.len(),
        end_of(rows, a) <= j,
        end <= rows.len(),
        a < end_of(rows, a) <= rows.len(),
    ensures
        ({
            let n = end_of(rows, a) - a;
            field_from(without(rows, a), j - n, end - n, depth, field) == (match field_from(
                rows,
                j,
                end,
                depth,
                field,
            ) {
                Some(c) => Some(c - n),
                None => None,
            })
        }),
    decreases end - j,
{
    let n = end_of(rows, a) - a;
    if j < end {
        assert(without(rows, a)[j - n] == rows[j]);
        field_from_shift(rows, a, j + 1, end, depth, field);
    }
}

/// No row of the comment fills a field of a node around it.
proof fn field_from_skips(
    rows: Seq<SyntaxRowView>,
    a: int,
    j: int,
    end: int,
    depth: u32,
    field: Seq<char>,
)
    requires
        0 <= a < rows.len(),
        rows[a].field is None,
        rows[a].depth > depth,
        a <= j <= end_of(rows, a) <= end <= rows.len(),
    ensures
        field_from(rows, j, end, depth, field) == field_from(rows, end_of(rows, a), end, depth, field),
    decreases end_of(rows, a) - j,
{
    run_end_bounds(rows, a + 1, rows[a].depth);
    if j < end_of(rows, a) {
        field_from_skips(rows, a, j + 1, end, depth, field);
    }
}

proof fn field_from_cut(
    rows: Seq<SyntaxRowView>,
    a: int,
    j: int,
    end: int,
    depth: u32,
    field: Seq<char>,
)
    requires
        0 <= j <= a < rows.len(),
        rows[a].field is None,
        end <= rows.len(),
        end <= a || (rows[a].depth > depth && end_of(rows, a) <= end),
    ensures
        field_from(without(rows, a), j, moved(rows, a, end), depth, field) == (match field_from(
            rows,
            j,
            end,
            depth,
            field,
        ) {
            Some(c) => Some(moved(rows, a, c)),
            None => None,
        }),
        field_from(rows, j, end, depth, field) matches Some(c) ==> c < a || c >= end_of(rows, a),
    decreases a - j,
{
    run_end_bounds(rows, a + 1, rows[a].depth);
    let b = end_of(rows, a);
    if j < end {
        if j < a {
            assert(without(rows, a)[j] == rows[j]);
            field_from_cut(rows, a, j + 1, end, depth, field);
        } else {
            field_from_skips(rows, a, a, end, depth, field);
            field_from_shift(rows, a, b, end, depth, field);
            field_from_bounds(rows, b, end, depth, field);
        }
    }
}

proof fn params_shift(lang: LangSupport, rows: Seq<SyntaxRowView>, a: int, j: int, end: int, depth: u32)
    requires
        0 <= a < rows.len(),
        end_of(rows, a) <= j,
        end <= rows.len(),
        a < end_of(rows, a) <= rows.len(),
    ensures
        ({
            let n = end_of(rows, a) - a;
            params_from(lang, without(rows, a), j - n, end - n, depth) == params_from(
                lang,
                rows,
                j,
                end,
                depth,
            )
        }),
    decreases end - j,
{
    let n = end_of(rows, a) - a;
    if j < end {
        assert(without(rows, a)[j - n] == rows[j]);
        params_shift(lang, rows, a, j + 1, end, depth);
    }
}

proof fn params_skips(lang: LangSupport, rows: Seq<SyntaxRowView>, a: int, j: int, end: int, depth: u32)
    requires
        0 <= a < rows.len(),
        rows[a].depth > depth,
        is_remark(lang, rows[a].kind),
        a <= j <= end_of(rows, a) <= end <= rows.len(),
    ensures
        params_from(lang, rows, j, end, depth) == params_from(lang, rows, end_of(rows, a), end, depth),
    decreases end_of(rows, a) - j,
{
    run_end_bounds(rows, a + 1, rows[a].depth);
    if j < end_of(rows, a) {
        params_skips(lang, rows, a, j + 1, end, depth);
    }
}

proof fn params_cut(lang: LangSupport, rows: Seq<SyntaxRowView>, a: int, j: int, end: int, depth: u32)
    requires
        0 <= j <= a < rows.len(),
        end <= rows.len(),
        is_remark(lang, rows[a].kind),
        end <= a || (rows[a].depth > depth && end_of(rows, a) <= end),
    ensures
        params_from(lang, without(rows, a), j, moved(rows, a, end), depth) == params_from(
            lang,
            rows,
            j,
            end,
            depth,
        ),
    decreases a - j,
{
    run_end_bounds(rows, a + 1, rows[a].depth);
    let b = end_of(rows, a);
    if j < end {
        if j < a {
            assert(without(rows, a)[j] == rows[j]);
            params_cut(lang, rows, a, j + 1, end, depth);
        } else {
            params_skips(lang, rows, a, a, end, depth);
            params_shift(lang, rows, a, b, end, depth);
        }
    }
}

/// A child is found again, moved, when a comment is taken out.
proof fn child_cut(rows: Seq<SyntaxRowView>, a: int, i: int, field: Seq<char>)
    requires
        0 <= i < a < rows.len(),
        rows[a].field is None,
    ensures
        child_by_field(without(rows, a), i, field) == (match child_by_field(rows, i, field) {
            Some(c) => Some(moved(rows, a, c)),
            None => None,
        }),
        child_by_field(rows, i, field) matches Some(c) ==> i < c < rows.len() && (c < a || c >= end_of(
            rows,
            a,
        )),
{
    let q = without(rows, a);
    assert(q[i] == rows[i]);
    run_end_cut(rows, a, i + 1, rows[i].depth);
    run_end_bounds(rows, i + 1, rows[i].depth);
    run_end_bounds(rows, a + 1, rows[a].depth);
    let end = end_of(rows, i);
    if end > a {
        assert(rows[a].depth > rows[i].depth);
    }
    field_from_cut(rows, a, i + 1, end, rows[i].depth, field);
    field_from_bounds(rows, i + 1, end, rows[i].depth, field);
}

proof fn shape_cut(lang: LangSupport, rows: Seq<SyntaxRowView>, a: int, i: int)
    requires
        0 <= i < a < rows.len(),
        rows[a].field is None,
        is_remark(lang, rows[a].kind),
    ensures
        shape(lang, without(rows, a), i) == shape(lang, rows, i),
{
    let q = without(rows, a);
    let b = end_of(rows, a);
    run_end_bounds(rows, a + 1, rows[a].depth);
    child_cut(rows, a, i, "parameters"@);
    child_cut(rows, a, i, "return_type"@);
    child_cut(rows, a, i, "result"@);
    if let Some(p) = child_by_field(rows, i, "parameters"@) {
        run_end_bounds(rows, p + 1, rows[p].depth);
        let end = end_of(rows, p);
        if p < a {
            assert(q[p] == rows[p]);
            run_end_cut(rows, a, p + 1, rows[p].depth);
            if end > a {
                assert(rows[a].depth > rows[p].depth);
            }
            params_cut(lang, rows, a, p + 1, end, rows[p].depth);
        } else {
            assert(q[p - (b - a)] == rows[p]);
            run_end_shift(rows, a, p + 1, rows[p].depth);
            params_shift(lang, rows, a, p + 1, end, rows[p].depth);
        }
    }
}

/// Comments leave the hash as it is: taking one out of a node, its parameter list
/// included, changes nothing, unless it was all there was in its parent.
pub proof fn hash_ignores_comments(
    lang: LangSupport,
    rows: Seq<SyntaxRowView>,
    source: Seq<char>,
    i: int,
    a: int,
)
    requires
        0 <= i < a < end_of(rows, i),
        i < rows.len(),
        is_remark(lang, rows[a].kind),
        rows[a].field is None,
        has_company(rows, a),
    ensures
        hash_of(lang, without(rows, a), source, i) == hash_of(lang, rows, source, i),
{
    let q = without(rows, a);
    run_end_bounds(rows, i + 1, rows[i].depth);
    run_end_bounds(rows, a + 1, rows[a].depth);
    shape_cut(lang, rows, a, i);
    assert(q[i] == rows[i]);
    run_end_cut(rows, a, i + 1, rows[i].depth);
    nested_end(rows, i, a);
    tokens_cut(lang, rows, source, a, i, end_of(rows, i));
    assert(hash_input(lang, q, source, i) == hash_input(lang, rows, source, i));
}

} // verus!
