//! What the definitions of a syntax tree are, said of its nodes: which nodes are listed,
//! under which label, and how their names are qualified, by the kinds that the grammars
//! give them.
use crate::anchor::{
    definition, definitions, definitions_before, field_text, go_label, go_receiver, go_scope_field, hash_of,
    java_label, java_scope_field, label, line_of, method_context, php_label, php_scope_field, python_label,
    python_scope_field, resets_methods, ruby_label, ruby_scope_field, rust_label, rust_scope_field,
    opens_methods, own_prefix, scope_of, source_definitions, span_of, ts_label, ts_scope_field,
    DefinitionView,
};
use crate::syntax::{
    above, child_by_field, end_of, field_from, kind_from, named_from, parent_of, row_text, run_end,
    run_end_bounds, syntax, LangSupport, SyntaxRowView,
};
use crate::text::joined;
use vstd::prelude::*;

verus! {

/// Node `a` is around node `i`: what follows it, up to `i`, is deeper.
pub open spec fn around(rows: Seq<SyntaxRowView>, a: int, i: int) -> bool {
    0 <= a < i < rows.len() && forall|k: int| a < k <= i ==> (#[trigger] rows[k]).depth > rows[a].depth
}

/// Node `p` is the parent of node `i`: the nearest node around it.
pub open spec fn is_parent(rows: Seq<SyntaxRowView>, p: int, i: int) -> bool {
    around(rows, p, i) && forall|b: int| p < b < i ==> !#[trigger] around(rows, b, i)
}

/// Node `c` is the first child of node `i` that fills `field`.
pub open spec fn fills(rows: Seq<SyntaxRowView>, i: int, c: int, field: Seq<char>) -> bool {
    &&& around(rows, i, c)
    &&& rows[c].depth == rows[i].depth + 1
    &&& rows[c].field == Some(field)
    &&& forall|b: int|
        i < b < c && (#[trigger] rows[b]).depth == rows[i].depth + 1 ==> rows[b].field != Some(field)
}

/// Node `i` has a name, and this is its text.
pub open spec fn is_named(rows: Seq<SyntaxRowView>, source: Seq<char>, i: int, name: Seq<char>) -> bool {
    exists|c: int| #[trigger] fills(rows, i, c, "name"@) && row_text(source, rows[c]) == Some(name)
}

/// A definition is that of node `i`: it has this label, the node's name at the end of its
/// path, the node's lines counted from 1, and the node's hash. In Python the lines are
/// those of the decorated definition around it, where there is one.
pub open spec fn shows(
    d: DefinitionView,
    lang: LangSupport,
    rows: Seq<SyntaxRowView>,
    source: Seq<char>,
    i: int,
    name: Seq<char>,
    label: Seq<char>,
) -> bool {
    let scope = scope_of(lang, rows, source, i);
    let span = rows[span_of(lang, rows, i)];
    &&& d.node_kind == label
    &&& d.symbol_path == joined(
        match own_prefix(lang, rows, source, i) {
            Some(prefix) => scope.push(prefix).push(name),
            None => scope.push(name),
        },
        "::"@,
    )
    &&& span.start_row < u32::MAX ==> d.line_span.0 == span.start_row + 1
    &&& span.end_row < u32::MAX ==> d.line_span.1 == span.end_row + 1
    &&& d.structural_hash == hash_of(lang, rows, source, i)
}

/// Node `i` is among the definitions, under this label.
pub open spec fn defined(
    lang: LangSupport,
    rows: Seq<SyntaxRowView>,
    source: Seq<char>,
    i: int,
    name: Seq<char>,
    label: Seq<char>,
) -> bool {
    exists|d: DefinitionView| #[trigger]
        definitions(lang, rows, source).contains(d) && shows(d, lang, rows, source, i, name, label)
}

// ---- Nodes ------------------------------------------------------------------

proof fn run_end_stops_there(rows: Seq<SyntaxRowView>, j: int, depth: u32)
    requires
        0 <= j <= rows.len(),
    ensures
        run_end(rows, j, depth) < rows.len() ==> rows[run_end(rows, j, depth)].depth <= depth,
    decreases rows.len() - j,
{
    if j < rows.len() && rows[j].depth > depth {
        run_end_stops_there(rows, j + 1, depth);
    }
}

/// A node is around what lies in its subtree, and nothing else.
pub proof fn subtree_is_around(rows: Seq<SyntaxRowView>, a: int, i: int)
    requires
        0 <= a < i < rows.len(),
    ensures
        i < end_of(rows, a) <==> around(rows, a, i),
{
    run_end_bounds(rows, a + 1, rows[a].depth);
    run_end_stops_there(rows, a + 1, rows[a].depth);
    if around(rows, a, i) && end_of(rows, a) <= i {
        assert(rows[end_of(rows, a)].depth > rows[a].depth);
    }
}

proof fn field_from_first(rows: Seq<SyntaxRowView>, j: int, end: int, depth: u32, field: Seq<char>)
    ensures
        match field_from(rows, j, end, depth, field) {
            Some(c) => j <= c < end && rows[c].depth == depth + 1 && rows[c].field == Some(field)
                && forall|b: int|
                j <= b < c && (#[trigger] rows[b]).depth == depth + 1 ==> rows[b].field != Some(field),
            None => forall|b: int|
                j <= b < end && (#[trigger] rows[b]).depth == depth + 1
                    ==> rows[b].field != Some(field),
        },
    decreases end - j,
{
    if j < end {
        field_from_first(rows, j + 1, end, depth, field);
    }
}

/// The child that fills a field is found.
pub proof fn fills_is_child(rows: Seq<SyntaxRowView>, i: int, c: int, field: Seq<char>)
    requires
        fills(rows, i, c, field),
    ensures
        child_by_field(rows, i, field) == Some(c),
{
    subtree_is_around(rows, i, c);
    field_from_first(rows, i + 1, end_of(rows, i), rows[i].depth, field);
}

/// What is found for a field is the child that fills it.
pub proof fn child_fills(rows: Seq<SyntaxRowView>, i: int, field: Seq<char>)
    requires
        0 <= i < rows.len(),
    ensures
        child_by_field(rows, i, field) matches Some(c) ==> fills(rows, i, c, field),
{
    run_end_bounds(rows, i + 1, rows[i].depth);
    field_from_first(rows, i + 1, end_of(rows, i), rows[i].depth, field);
    if let Some(c) = child_by_field(rows, i, field) {
        subtree_is_around(rows, i, c);
    }
}

proof fn name_is_text(rows: Seq<SyntaxRowView>, source: Seq<char>, i: int, name: Seq<char>)
    requires
        is_named(rows, source, i, name),
    ensures
        field_text(rows, source, i, "name"@) == Some(name),
{
    let c = choose|c: int| #[trigger]
        fills(rows, i, c, "name"@) && row_text(source, rows[c]) == Some(name);
    fills_is_child(rows, i, c, "name"@);
}

proof fn above_is_last(rows: Seq<SyntaxRowView>, j: int, depth: u32)
    ensures
        match above(rows, j, depth) {
            Some(q) => 0 <= q <= j && rows[q].depth < depth && forall|k: int|
                q < k <= j ==> (#[trigger] rows[k]).depth >= depth,
            None => forall|k: int| 0 <= k <= j ==> (#[trigger] rows[k]).depth >= depth,
        },
    decreases j + 1,
{
    if j >= 0 && rows[j].depth >= depth {
        above_is_last(rows, j - 1, depth);
    }
}

/// The parent of a node is the nearest node around it.
pub proof fn parent_is_nearest(rows: Seq<SyntaxRowView>, i: int)
    requires
        0 <= i < rows.len(),
    ensures
        match parent_of(rows, i) {
            Some(p) => is_parent(rows, p, i),
            None => forall|b: int| !#[trigger] around(rows, b, i),
        },
{
    above_is_last(rows, i - 1, rows[i].depth);
    match parent_of(rows, i) {
        Some(p) => {
            assert(around(rows, p, i));
            assert forall|b: int| p < b < i implies !#[trigger] around(rows, b, i) by {
                assert(rows[b].depth >= rows[i].depth);
            }
        },
        None => {
            assert forall|b: int| !#[trigger] around(rows, b, i) by {
                if 0 <= b < i {
                    assert(rows[b].depth >= rows[i].depth);
                }
            }
        },
    }
}

proof fn parent_is_found(rows: Seq<SyntaxRowView>, p: int, i: int)
    requires
        is_parent(rows, p, i),
    ensures
        parent_of(rows, i) == Some(p),
{
    parent_is_nearest(rows, i);
    if let Some(q) = parent_of(rows, i) {
        if q < p {
            assert(!around(rows, p, i));
        }
    }
}

/// Names at the top of a tree are not qualified.
pub proof fn top_names_are_bare(lang: LangSupport, rows: Seq<SyntaxRowView>, source: Seq<char>, i: int)
    requires
        is_parent(rows, 0, i),
    ensures
        scope_of(lang, rows, source, i) == Seq::<Seq<char>>::empty(),
{
    parent_is_found(rows, 0, i);
}

/// What is around a parent is around its child; what is around a child is its parent or
/// around that.
proof fn around_parent(rows: Seq<SyntaxRowView>, p: int, i: int, a: int)
    requires
        is_parent(rows, p, i),
    ensures
        around(rows, a, i) <==> a == p || around(rows, a, p),
{
    if around(rows, a, i) && a != p {
        if a > p {
            assert(!around(rows, a, i));
        }
        assert forall|k: int| a < k <= p implies (#[trigger] rows[k]).depth > rows[a].depth by {}
    }
    if around(rows, a, p) {
        assert(rows[p].depth > rows[a].depth);
        assert forall|k: int| a < k <= i implies (#[trigger] rows[k]).depth > rows[a].depth by {
            if k > p {
                assert(rows[k].depth > rows[p].depth);
            }
        }
    }
}

/// Nothing between `a` and node `i` ends method context.
spec fn clear(lang: LangSupport, rows: Seq<SyntaxRowView>, a: int, i: int) -> bool {
    forall|b: int| a < b && #[trigger] around(rows, b, i) ==> !resets_methods(lang, rows[b].kind)
}

proof fn nearest_decides(lang: LangSupport, rows: Seq<SyntaxRowView>, i: int)
    requires
        0 <= i < rows.len(),
        forall|kind: Seq<char>| #[trigger]
            opens_methods(lang, kind) ==> !resets_methods(lang, kind),
    ensures
        method_context(lang, rows, i) <==> exists|a: int| #[trigger]
            around(rows, a, i) && 0 < a && opens_methods(lang, rows[a].kind) && clear(lang, rows, a, i),
    decreases i,
{
    parent_is_nearest(rows, i);
    if let Some(p) = parent_of(rows, i) {
        if p > 0 {
            nearest_decides(lang, rows, p);
            assert forall|a: int| #[trigger] around(rows, a, i) <==> a == p || around(rows, a, p) by {
                around_parent(rows, p, i, a);
            }
            if method_context(lang, rows, i) {
                if opens_methods(lang, rows[p].kind) {
                    assert(around(rows, p, i));
                    assert(clear(lang, rows, p, i));
                } else {
                    let a = choose|a: int| #[trigger]
                        around(rows, a, p) && 0 < a && opens_methods(lang, rows[a].kind) && clear(
                            lang,
                            rows,
                            a,
                            p,
                        );
                    assert(around(rows, a, i));
                    assert(clear(lang, rows, a, i));
                }
            }
            if exists|a: int| #[trigger]
                around(rows, a, i) && 0 < a && opens_methods(lang, rows[a].kind)
                    && clear(lang, rows, a, i) {
                let a = choose|a: int| #[trigger]
                    around(rows, a, i) && 0 < a && opens_methods(lang, rows[a].kind) && clear(
                        lang,
                        rows,
                        a,
                        i,
                    );
                if a != p {
                    assert(around(rows, a, p));
                    assert(around(rows, p, i));
                    assert(clear(lang, rows, a, p)) by {
                        assert forall|b: int| a < b
                            && #[trigger] around(rows, b, p) implies !resets_methods(
                            lang,
                            rows[b].kind,
                        ) by {
                            assert(around(rows, b, i));
                        }
                    }
                }
            }
        } else {
            assert forall|a: int| #[trigger] around(rows, a, i) implies a <= 0 by {
                if a > 0 {
                    assert(!around(rows, a, i));
                }
            }
        }
    }
}

// ---- Definitions ------------------------------------------------------------

proof fn lines_count_from_one(row: usize)
    ensures
        row < u32::MAX ==> line_of(row) == row + 1,
{
}

proof fn definition_shows(
    lang: LangSupport,
    rows: Seq<SyntaxRowView>,
    source: Seq<char>,
    i: int,
    name: Seq<char>,
    found: Seq<char>,
    d: DefinitionView,
)
    requires
        label(lang, rows, i, method_context(lang, rows, i)) == Some(found),
        field_text(rows, source, i, "name"@) == Some(name),
        definition(lang, rows, source, i) == Some(d),
    ensures
        shows(d, lang, rows, source, i, name, found),
{
    lines_count_from_one(rows[span_of(lang, rows, i)].start_row);
    lines_count_from_one(rows[span_of(lang, rows, i)].end_row);
}

proof fn node_is_listed(lang: LangSupport, rows: Seq<SyntaxRowView>, source: Seq<char>, i: int, n: int)
    requires
        1 <= i < n,
        definition(lang, rows, source, i) is Some,
    ensures
        definitions_before(lang, rows, source, n).contains(definition(lang, rows, source, i)->0),
    decreases n,
{
    let d = definition(lang, rows, source, i)->0;
    let all = definitions_before(lang, rows, source, n);
    let front = definitions_before(lang, rows, source, n - 1);
    if i < n - 1 {
        node_is_listed(lang, rows, source, i, n - 1);
        let k = front.index_of(d);
        assert(all[k] == d);
    } else {
        assert(all[all.len() - 1] == d);
    }
}

proof fn listed_is_node(
    lang: LangSupport,
    rows: Seq<SyntaxRowView>,
    source: Seq<char>,
    n: int,
    d: DefinitionView,
) -> (i: int)
    requires
        n <= rows.len(),
        definitions_before(lang, rows, source, n).contains(d),
    ensures
        1 <= i < n,
        definition(lang, rows, source, i) == Some(d),
        exists|name: Seq<char>| #[trigger]
            is_named(rows, source, i, name) && shows(d, lang, rows, source, i, name, d.node_kind),
    decreases n,
{
    let all = definitions_before(lang, rows, source, n);
    let k = all.index_of(d);
    let front = definitions_before(lang, rows, source, n - 1);
    if k < front.len() {
        assert(front[k] == d);
        listed_is_node(lang, rows, source, n - 1, d)
    } else {
        let i = n - 1;
        child_fills(rows, i, "name"@);
        let c = child_by_field(rows, i, "name"@)->0;
        let name = field_text(rows, source, i, "name"@)->0;
        let found = label(lang, rows, i, method_context(lang, rows, i))->0;
        assert(all == front.push(definition(lang, rows, source, i)->0));
        assert(definition(lang, rows, source, i) == Some(d));
        assert(fills(rows, i, c, "name"@) && row_text(source, rows[c]) == Some(name));
        assert(is_named(rows, source, i, name));
        definition_shows(lang, rows, source, i, name, found, d);
        i
    }
}

proof fn labelled(
    lang: LangSupport,
    rows: Seq<SyntaxRowView>,
    source: Seq<char>,
    i: int,
    name: Seq<char>,
    found: Seq<char>,
)
    requires
        1 <= i < rows.len(),
        is_named(rows, source, i, name),
        label(lang, rows, i, method_context(lang, rows, i)) == Some(found),
    ensures
        defined(lang, rows, source, i, name, found),
{
    name_is_text(rows, source, i, name);
    node_is_listed(lang, rows, source, i, rows.len() as int);
    let d = definition(lang, rows, source, i)->0;
    definition_shows(lang, rows, source, i, name, found, d);
    assert(definitions(lang, rows, source).contains(d));
}

/// Definitions are listed in the order of their nodes, each node once and none left out.
pub proof fn definitions_follow_nodes(lang: LangSupport, rows: Seq<SyntaxRowView>, source: Seq<char>) -> (nodes:
    Seq<int>)
    ensures
        nodes.len() == definitions(lang, rows, source).len(),
        forall|k: int, l: int| 0 <= k < l < nodes.len() ==> #[trigger] nodes[k] < #[trigger] nodes[l],
        forall|k: int|
            0 <= k < nodes.len() ==> 1 <= #[trigger] nodes[k] < rows.len() && definition(
                lang,
                rows,
                source,
                nodes[k],
            ) == Some(definitions(lang, rows, source)[k]),
        forall|i: int|
            1 <= i < rows.len() && (#[trigger] definition(lang, rows, source, i)) is Some
                ==> nodes.contains(i),
{
    let f = |i: int| definition(lang, rows, source, i);
    let n = rows.len() as int;
    gathered_definitions(lang, rows, source, f, n);
    let nodes = nodes_gathered(f, n);
    assert forall|k: int| 0 <= k < nodes.len() implies 1 <= #[trigger] nodes[k] < rows.len()
        && definition(
        lang,
        rows,
        source,
        nodes[k],
    ) == Some(definitions(lang, rows, source)[k]) by {
        assert(f(nodes[k]) == Some(gathered(f, n)[k]));
    }
    assert forall|i: int| 1 <= i < rows.len()
        && (#[trigger] definition(lang, rows, source, i)) is Some implies nodes.contains(
        i,
    ) by {
        assert(f(i) is Some);
    }
    nodes
}

/// What the positions from 1 up to `n` give, in order.
spec fn gathered(f: spec_fn(int) -> Option<DefinitionView>, n: int) -> Seq<DefinitionView>
    decreases n,
{
    if n <= 1 {
        Seq::empty()
    } else {
        match f(n - 1) {
            Some(d) => gathered(f, n - 1).push(d),
            None => gathered(f, n - 1),
        }
    }
}

proof fn gathered_definitions(
    lang: LangSupport,
    rows: Seq<SyntaxRowView>,
    source: Seq<char>,
    f: spec_fn(int) -> Option<DefinitionView>,
    n: int,
)
    requires
        forall|i: int| #[trigger] f(i) == definition(lang, rows, source, i),
    ensures
        gathered(f, n) == definitions_before(lang, rows, source, n),
    decreases n,
{
    if n > 1 {
        gathered_definitions(lang, rows, source, f, n - 1);
        assert(f(n - 1) == definition(lang, rows, source, n - 1));
    }
}

proof fn nodes_gathered(f: spec_fn(int) -> Option<DefinitionView>, n: int) -> (nodes: Seq<int>)
    ensures
        nodes.len() == gathered(f, n).len(),
        forall|k: int, l: int| 0 <= k < l < nodes.len() ==> #[trigger] nodes[k] < #[trigger] nodes[l],
        forall|k: int|
            0 <= k < nodes.len() ==> 1 <= #[trigger] nodes[k] < n
                && f(nodes[k]) == Some(gathered(f, n)[k]),
        forall|i: int| 1 <= i < n && (#[trigger] f(i)) is Some ==> nodes.contains(i),
    decreases n,
{
    if n <= 1 {
        Seq::empty()
    } else {
        let some = nodes_gathered(f, n - 1);
        if f(n - 1) is Some {
            let all = some.push(n - 1);
            assert forall|i: int| 1 <= i < n && (#[trigger] f(i)) is Some implies all.contains(i) by {
                if i < n - 1 {
                    assert(all[some.index_of(i)] == i);
                } else {
                    assert(all[some.len() as int] == i);
                }
            }
            all
        } else {
            some
        }
    }
}

/// A Python definition that is decorated is shown from its decorators on; otherwise, and
/// in every other language, the lines are those of the definition itself.
pub proof fn decorators_count(lang: LangSupport, rows: Seq<SyntaxRowView>, p: int, i: int)
    requires
        is_parent(rows, p, i),
    ensures
        span_of(lang, rows, i) == (if lang == LangSupport::Python
            && rows[p].kind == "decorated_definition"@ {
            p
        } else {
            i
        }),
{
    parent_is_found(rows, p, i);
}

/// Only a Go method and a Ruby singleton method have an owner of their own: the text of
/// the singleton's object, and the receiver's type.
pub proof fn owners_are_named(lang: LangSupport, rows: Seq<SyntaxRowView>, source: Seq<char>, i: int, c: int)
    requires
        0 <= i < rows.len(),
    ensures
        !(lang == LangSupport::Ruby && rows[i].kind == "singleton_method"@) && !(lang == LangSupport::Go
            && rows[i].kind == "method_declaration"@) ==> own_prefix(lang, rows, source, i) is None,
        lang == LangSupport::Ruby && rows[i].kind == "singleton_method"@ && fills(rows, i, c, "object"@)
            ==> own_prefix(lang, rows, source, i) == row_text(source, rows[c]),
        lang == LangSupport::Go && rows[i].kind == "method_declaration"@
            ==> own_prefix(lang, rows, source, i)
            == go_receiver(rows, source, i),
{
    if fills(rows, i, c, "object"@) {
        fills_is_child(rows, i, c, "object"@);
    }
}

/// Node `i` stands in method context: inside a node of one of these kinds, with nothing in
/// between that ends it.
pub open spec fn in_rust_type(rows: Seq<SyntaxRowView>, i: int) -> bool {
    exists|a: int| #[trigger]
        around(rows, a, i) && 0 < a && (rows[a].kind == "impl_item"@ || rows[a].kind == "trait_item"@)
            && forall|b: int|
            a < b && #[trigger] around(rows, b, i) ==> rows[b].kind != "mod_item"@
                && rows[b].kind != "function_item"@
}

proof fn rust_contexts_differ(lang: LangSupport)
    requires
        lang == LangSupport::Rust,
    ensures
        forall|kind: Seq<char>| #[trigger] opens_methods(lang, kind) ==> !resets_methods(lang, kind),
{
    reveal_strlit("impl_item");
    assert("impl_item"@.len() == 9);
    reveal_strlit("trait_item");
    assert("trait_item"@.len() == 10);
    reveal_strlit("mod_item");
    assert("mod_item"@.len() == 8);
    reveal_strlit("function_item");
    assert("function_item"@.len() == 13);
    assert forall|kind: Seq<char>| #[trigger] opens_methods(lang, kind) implies !resets_methods(lang, kind) by {}
}

proof fn rust_context(lang: LangSupport, rows: Seq<SyntaxRowView>, i: int)
    requires
        lang == LangSupport::Rust,
        0 <= i < rows.len(),
    ensures
        method_context(lang, rows, i) == in_rust_type(rows, i),
{
    rust_contexts_differ(lang);
    nearest_decides(lang, rows, i);
    if method_context(lang, rows, i) {
        let a = choose|a: int| #[trigger]
            around(rows, a, i) && 0 < a && opens_methods(lang, rows[a].kind) && clear(lang, rows, a, i);
        assert(around(rows, a, i));
    }
    if in_rust_type(rows, i) {
        let a = choose|a: int| #[trigger]
            around(rows, a, i) && 0 < a && (rows[a].kind == "impl_item"@
                || rows[a].kind == "trait_item"@)
                && forall|b: int|
                a < b && #[trigger] around(rows, b, i) ==> rows[b].kind != "mod_item"@
                    && rows[b].kind != "function_item"@;
        assert(around(rows, a, i) && opens_methods(lang, rows[a].kind) && clear(lang, rows, a, i));
    }
}

proof fn rust_labels(kind: Seq<char>, in_method: bool)
    ensures
        kind == "function_item"@ ==> rust_label(kind, in_method) == Some(
            if in_method {
                "method"@
            } else {
                "function"@
            },
        ),
        kind == "function_signature_item"@ ==> rust_label(kind, in_method) == Some(
            if in_method {
                "method"@
            } else {
                "function"@
            },
        ),
        kind == "struct_item"@ ==> rust_label(kind, in_method) == Some("struct"@),
        kind == "enum_item"@ ==> rust_label(kind, in_method) == Some("enum"@),
        kind == "union_item"@ ==> rust_label(kind, in_method) == Some("union"@),
        kind == "trait_item"@ ==> rust_label(kind, in_method) == Some("trait"@),
        kind == "mod_item"@ ==> rust_label(kind, in_method) == Some("module"@),
        kind != "function_item"@ && kind != "function_signature_item"@ && kind != "struct_item"@
            && kind != "enum_item"@ && kind != "union_item"@ && kind != "trait_item"@
            && kind != "mod_item"@ ==> rust_label(kind, in_method) is None,
{
    reveal_strlit("function_item");
    assert("function_item"@.len() == 13);
    reveal_strlit("function_signature_item");
    assert("function_signature_item"@.len() == 23);
    reveal_strlit("struct_item");
    assert("struct_item"@.len() == 11);
    reveal_strlit("enum_item");
    assert("enum_item"@.len() == 9);
    reveal_strlit("union_item");
    assert("union_item"@.len() == 10);
    reveal_strlit("trait_item");
    assert("trait_item"@.len() == 10);
    reveal_strlit("mod_item");
    assert("mod_item"@.len() == 8);
    assert("union_item"@[0] != "trait_item"@[0]);
}

proof fn rust_scopes(kind: Seq<char>)
    ensures
        kind == "mod_item"@ ==> rust_scope_field(kind) == Some("name"@),
        kind == "trait_item"@ ==> rust_scope_field(kind) == Some("name"@),
        kind == "impl_item"@ ==> rust_scope_field(kind) == Some("type"@),
        kind != "mod_item"@ && kind != "trait_item"@ && kind != "impl_item"@
            ==> rust_scope_field(kind) is None,
{
    reveal_strlit("mod_item");
    assert("mod_item"@.len() == 8);
    reveal_strlit("trait_item");
    assert("trait_item"@.len() == 10);
    reveal_strlit("impl_item");
    assert("impl_item"@.len() == 9);
}

/// Every named Rust node of one of these kinds is among the definitions, under the label
/// of its kind.
pub proof fn rust_nodes_are_defined(
    lang: LangSupport,
    rows: Seq<SyntaxRowView>,
    source: Seq<char>,
    i: int,
    name: Seq<char>,
)
    requires
        lang == LangSupport::Rust,
        1 <= i < rows.len(),
        is_named(rows, source, i, name),
    ensures
        rows[i].kind == "function_item"@
            ==> defined(lang, rows, source, i, name, if in_rust_type(rows, i) {
            "method"@
        } else {
            "function"@
        }),
        rows[i].kind == "function_signature_item"@
            ==> defined(lang, rows, source, i, name, if in_rust_type(rows, i) {
            "method"@
        } else {
            "function"@
        }),
        rows[i].kind == "struct_item"@ ==> defined(lang, rows, source, i, name, "struct"@),
        rows[i].kind == "enum_item"@ ==> defined(lang, rows, source, i, name, "enum"@),
        rows[i].kind == "union_item"@ ==> defined(lang, rows, source, i, name, "union"@),
        rows[i].kind == "trait_item"@ ==> defined(lang, rows, source, i, name, "trait"@),
        rows[i].kind == "mod_item"@ ==> defined(lang, rows, source, i, name, "module"@),
{
    rust_context(lang, rows, i);
    rust_labels(rows[i].kind, method_context(lang, rows, i));
    if let Some(found) = label(lang, rows, i, method_context(lang, rows, i)) {
        labelled(lang, rows, source, i, name, found);
    }
}

/// What is among the definitions of a Rust tree is a named node of one of these kinds.
pub proof fn rust_definitions_are_nodes(
    lang: LangSupport,
    rows: Seq<SyntaxRowView>,
    source: Seq<char>,
    d: DefinitionView,
) -> (i: int)
    requires
        lang == LangSupport::Rust,
        definitions(lang, rows, source).contains(d),
    ensures
        1 <= i < rows.len(),
        exists|name: Seq<char>| #[trigger]
            is_named(rows, source, i, name) && shows(d, lang, rows, source, i, name, d.node_kind),
        (rows[i].kind == "function_item"@ && d.node_kind == (if in_rust_type(rows, i) {
                "method"@
            } else {
                "function"@
            }))
        || (rows[i].kind == "function_signature_item"@ && d.node_kind == (if in_rust_type(rows, i) {
                "method"@
            } else {
                "function"@
            }))
        || (rows[i].kind == "struct_item"@ && d.node_kind == "struct"@)
        || (rows[i].kind == "enum_item"@ && d.node_kind == "enum"@)
        || (rows[i].kind == "union_item"@ && d.node_kind == "union"@)
        || (rows[i].kind == "trait_item"@ && d.node_kind == "trait"@)
        || (rows[i].kind == "mod_item"@ && d.node_kind == "module"@),
{
    let i = listed_is_node(lang, rows, source, rows.len() as int, d);
    rust_context(lang, rows, i);
    rust_labels(rows[i].kind, method_context(lang, rows, i));
    i
}

/// The names inside a Rust node are qualified by its own where it is of one of these kinds,
/// and otherwise as the node itself is.
pub proof fn rust_names_are_qualified(
    lang: LangSupport,
    rows: Seq<SyntaxRowView>,
    source: Seq<char>,
    p: int,
    i: int,
)
    requires
        lang == LangSupport::Rust,
        0 < p,
        is_parent(rows, p, i),
    ensures
        forall|c: int|
            rows[p].kind == "mod_item"@ && #[trigger] fills(rows, p, c, "name"@)
                && row_text(source, rows[c]) is Some
                ==> scope_of(lang, rows, source, i) == scope_of(lang, rows, source, p).push(
                row_text(source, rows[c])->0,
            ),
        forall|c: int|
            rows[p].kind == "trait_item"@ && #[trigger] fills(rows, p, c, "name"@)
                && row_text(source, rows[c]) is Some
                ==> scope_of(lang, rows, source, i) == scope_of(lang, rows, source, p).push(
                row_text(source, rows[c])->0,
            ),
        forall|c: int|
            rows[p].kind == "impl_item"@ && #[trigger] fills(rows, p, c, "type"@)
                && row_text(source, rows[c]) is Some
                ==> scope_of(lang, rows, source, i) == scope_of(lang, rows, source, p).push(
                row_text(source, rows[c])->0,
            ),
        rows[p].kind != "mod_item"@ && rows[p].kind != "trait_item"@ && rows[p].kind != "impl_item"@
            ==> scope_of(lang, rows, source, i) == scope_of(lang, rows, source, p),
{
    rust_scopes(rows[p].kind);
    parent_is_found(rows, p, i);
    assert forall|c: int| #[trigger] fills(rows, p, c, "name"@) implies child_by_field(rows, p, "name"@) == Some(c) by {
        fills_is_child(rows, p, c, "name"@);
    }
    assert forall|c: int| #[trigger] fills(rows, p, c, "type"@) implies child_by_field(rows, p, "type"@) == Some(c) by {
        fills_is_child(rows, p, c, "type"@);
    }
}

/// Node `i` stands in method context: inside a node of one of these kinds, with nothing in
/// between that ends it.
pub open spec fn in_ts_type(rows: Seq<SyntaxRowView>, i: int) -> bool {
    exists|a: int| #[trigger]
        around(rows, a, i) && 0 < a && (rows[a].kind == "class_declaration"@
            || rows[a].kind == "abstract_class_declaration"@
            || rows[a].kind == "interface_declaration"@)
            && forall|b: int|
            a < b && #[trigger] around(rows, b, i) ==> rows[b].kind != "function_declaration"@
                && rows[b].kind != "generator_function_declaration"@
                && rows[b].kind != "method_definition"@ && rows[b].kind != "method_signature"@
                && rows[b].kind != "abstract_method_signature"@ && rows[b].kind != "internal_module"@
}

proof fn ts_contexts_differ(lang: LangSupport)
    requires
        lang == LangSupport::TypeScript || lang == LangSupport::Tsx,
    ensures
        forall|kind: Seq<char>| #[trigger] opens_methods(lang, kind) ==> !resets_methods(lang, kind),
{
    reveal_strlit("class_declaration");
    assert("class_declaration"@.len() == 17);
    reveal_strlit("abstract_class_declaration");
    assert("abstract_class_declaration"@.len() == 26);
    reveal_strlit("interface_declaration");
    assert("interface_declaration"@.len() == 21);
    reveal_strlit("function_declaration");
    assert("function_declaration"@.len() == 20);
    reveal_strlit("generator_function_declaration");
    assert("generator_function_declaration"@.len() == 30);
    reveal_strlit("method_definition");
    assert("method_definition"@.len() == 17);
    reveal_strlit("method_signature");
    assert("method_signature"@.len() == 16);
    reveal_strlit("abstract_method_signature");
    assert("abstract_method_signature"@.len() == 25);
    reveal_strlit("internal_module");
    assert("internal_module"@.len() == 15);
    assert("class_declaration"@[0] != "method_definition"@[0]);
    assert forall|kind: Seq<char>| #[trigger] opens_methods(lang, kind) implies !resets_methods(lang, kind) by {}
}

proof fn ts_context(lang: LangSupport, rows: Seq<SyntaxRowView>, i: int)
    requires
        lang == LangSupport::TypeScript || lang == LangSupport::Tsx,
        0 <= i < rows.len(),
    ensures
        method_context(lang, rows, i) == in_ts_type(rows, i),
{
    ts_contexts_differ(lang);
    nearest_decides(lang, rows, i);
    if method_context(lang, rows, i) {
        let a = choose|a: int| #[trigger]
            around(rows, a, i) && 0 < a && opens_methods(lang, rows[a].kind) && clear(lang, rows, a, i);
        assert(around(rows, a, i));
    }
    if in_ts_type(rows, i) {
        let a = choose|a: int| #[trigger]
            around(rows, a, i) && 0 < a && (rows[a].kind == "class_declaration"@
                || rows[a].kind == "abstract_class_declaration"@
                || rows[a].kind == "interface_declaration"@)
                && forall|b: int|
                a < b && #[trigger] around(rows, b, i) ==> rows[b].kind != "function_declaration"@
                    && rows[b].kind != "generator_function_declaration"@
                    && rows[b].kind != "method_definition"@ && rows[b].kind != "method_signature"@
                    && rows[b].kind != "abstract_method_signature"@
                    && rows[b].kind != "internal_module"@;
        assert(around(rows, a, i) && opens_methods(lang, rows[a].kind) && clear(lang, rows, a, i));
    }
}

proof fn ts_labels(kind: Seq<char>, in_method: bool)
    ensures
        kind == "function_declaration"@ ==> ts_label(kind, in_method) == Some(
            if in_method {
                "method"@
            } else {
                "function"@
            },
        ),
        kind == "generator_function_declaration"@ ==> ts_label(kind, in_method) == Some(
            if in_method {
                "method"@
            } else {
                "function"@
            },
        ),
        kind == "method_definition"@ ==> ts_label(kind, in_method) == Some("method"@),
        kind == "method_signature"@ ==> ts_label(kind, in_method) == Some("method"@),
        kind == "abstract_method_signature"@ ==> ts_label(kind, in_method) == Some("method"@),
        kind == "class_declaration"@ ==> ts_label(kind, in_method) == Some("class"@),
        kind == "abstract_class_declaration"@ ==> ts_label(kind, in_method) == Some("class"@),
        kind == "interface_declaration"@ ==> ts_label(kind, in_method) == Some("interface"@),
        kind == "enum_declaration"@ ==> ts_label(kind, in_method) == Some("enum"@),
        kind == "internal_module"@ ==> ts_label(kind, in_method) == Some("module"@),
        kind != "function_declaration"@ && kind != "generator_function_declaration"@
            && kind != "method_definition"@ && kind != "method_signature"@
            && kind != "abstract_method_signature"@ && kind != "class_declaration"@
            && kind != "abstract_class_declaration"@ && kind != "interface_declaration"@
            && kind != "enum_declaration"@ && kind != "internal_module"@
            ==> ts_label(kind, in_method) is None,
{
    reveal_strlit("function_declaration");
    assert("function_declaration"@.len() == 20);
    reveal_strlit("generator_function_declaration");
    assert("generator_function_declaration"@.len() == 30);
    reveal_strlit("method_definition");
    assert("method_definition"@.len() == 17);
    reveal_strlit("method_signature");
    assert("method_signature"@.len() == 16);
    reveal_strlit("abstract_method_signature");
    assert("abstract_method_signature"@.len() == 25);
    reveal_strlit("class_declaration");
    assert("class_declaration"@.len() == 17);
    reveal_strlit("abstract_class_declaration");
    assert("abstract_class_declaration"@.len() == 26);
    reveal_strlit("interface_declaration");
    assert("interface_declaration"@.len() == 21);
    reveal_strlit("enum_declaration");
    assert("enum_declaration"@.len() == 16);
    reveal_strlit("internal_module");
    assert("internal_module"@.len() == 15);
    assert("method_definition"@[0] != "class_declaration"@[0]);
    assert("method_signature"@[0] != "enum_declaration"@[0]);
}

proof fn ts_scopes(kind: Seq<char>)
    ensures
        kind == "class_declaration"@ ==> ts_scope_field(kind) == Some("name"@),
        kind == "abstract_class_declaration"@ ==> ts_scope_field(kind) == Some("name"@),
        kind == "interface_declaration"@ ==> ts_scope_field(kind) == Some("name"@),
        kind == "internal_module"@ ==> ts_scope_field(kind) == Some("name"@),
        kind != "class_declaration"@ && kind != "abstract_class_declaration"@
            && kind != "interface_declaration"@ && kind != "internal_module"@
            ==> ts_scope_field(kind) is None,
{
    reveal_strlit("class_declaration");
    assert("class_declaration"@.len() == 17);
    reveal_strlit("abstract_class_declaration");
    assert("abstract_class_declaration"@.len() == 26);
    reveal_strlit("interface_declaration");
    assert("interface_declaration"@.len() == 21);
    reveal_strlit("internal_module");
    assert("internal_module"@.len() == 15);
}

/// Every named TypeScript node of one of these kinds is among the definitions, under the label
/// of its kind.
pub proof fn ts_nodes_are_defined(
    lang: LangSupport,
    rows: Seq<SyntaxRowView>,
    source: Seq<char>,
    i: int,
    name: Seq<char>,
)
    requires
        lang == LangSupport::TypeScript || lang == LangSupport::Tsx,
        1 <= i < rows.len(),
        is_named(rows, source, i, name),
    ensures
        rows[i].kind == "function_declaration"@
            ==> defined(lang, rows, source, i, name, if in_ts_type(rows, i) {
            "method"@
        } else {
            "function"@
        }),
        rows[i].kind == "generator_function_declaration"@
            ==> defined(lang, rows, source, i, name, if in_ts_type(rows, i) {
            "method"@
        } else {
            "function"@
        }),
        rows[i].kind == "method_definition"@ ==> defined(lang, rows, source, i, name, "method"@),
        rows[i].kind == "method_signature"@ ==> defined(lang, rows, source, i, name, "method"@),
        rows[i].kind == "abstract_method_signature"@
            ==> defined(lang, rows, source, i, name, "method"@),
        rows[i].kind == "class_declaration"@ ==> defined(lang, rows, source, i, name, "class"@),
        rows[i].kind == "abstract_class_declaration"@
            ==> defined(lang, rows, source, i, name, "class"@),
        rows[i].kind == "interface_declaration"@ ==> defined(lang, rows, source, i, name, "interface"@),
        rows[i].kind == "enum_declaration"@ ==> defined(lang, rows, source, i, name, "enum"@),
        rows[i].kind == "internal_module"@ ==> defined(lang, rows, source, i, name, "module"@),
{
    ts_context(lang, rows, i);
    ts_labels(rows[i].kind, method_context(lang, rows, i));
    if let Some(found) = label(lang, rows, i, method_context(lang, rows, i)) {
        labelled(lang, rows, source, i, name, found);
    }
}

/// What is among the definitions of a TypeScript tree is a named node of one of these kinds.
pub proof fn ts_definitions_are_nodes(
    lang: LangSupport,
    rows: Seq<SyntaxRowView>,
    source: Seq<char>,
    d: DefinitionView,
) -> (i: int)
    requires
        lang == LangSupport::TypeScript || lang == LangSupport::Tsx,
        definitions(lang, rows, source).contains(d),
    ensures
        1 <= i < rows.len(),
        exists|name: Seq<char>| #[trigger]
            is_named(rows, source, i, name) && shows(d, lang, rows, source, i, name, d.node_kind),
        (rows[i].kind == "function_declaration"@ && d.node_kind == (if in_ts_type(rows, i) {
                "method"@
            } else {
                "function"@
            }))
        || (rows[i].kind == "generator_function_declaration"@
            && d.node_kind == (if in_ts_type(rows, i) {
                "method"@
            } else {
                "function"@
            }))
        || (rows[i].kind == "method_definition"@ && d.node_kind == "method"@)
        || (rows[i].kind == "method_signature"@ && d.node_kind == "method"@)
        || (rows[i].kind == "abstract_method_signature"@ && d.node_kind == "method"@)
        || (rows[i].kind == "class_declaration"@ && d.node_kind == "class"@)
        || (rows[i].kind == "abstract_class_declaration"@ && d.node_kind == "class"@)
        || (rows[i].kind == "interface_declaration"@ && d.node_kind == "interface"@)
        || (rows[i].kind == "enum_declaration"@ && d.node_kind == "enum"@)
        || (rows[i].kind == "internal_module"@ && d.node_kind == "module"@),
{
    let i = listed_is_node(lang, rows, source, rows.len() as int, d);
    ts_context(lang, rows, i);
    ts_labels(rows[i].kind, method_context(lang, rows, i));
    i
}

/// The names inside a TypeScript node are qualified by its own where it is of one of these kinds,
/// and otherwise as the node itself is.
pub proof fn ts_names_are_qualified(
    lang: LangSupport,
    rows: Seq<SyntaxRowView>,
    source: Seq<char>,
    p: int,
    i: int,
)
    requires
        lang == LangSupport::TypeScript || lang == LangSupport::Tsx,
        0 < p,
        is_parent(rows, p, i),
    ensures
        forall|c: int|
            rows[p].kind == "class_declaration"@ && #[trigger] fills(rows, p, c, "name"@)
                && row_text(source, rows[c]) is Some
                ==> scope_of(lang, rows, source, i) == scope_of(lang, rows, source, p).push(
                row_text(source, rows[c])->0,
            ),
        forall|c: int|
            rows[p].kind == "abstract_class_declaration"@ && #[trigger] fills(rows, p, c, "name"@)
                && row_text(source, rows[c]) is Some
                ==> scope_of(lang, rows, source, i) == scope_of(lang, rows, source, p).push(
                row_text(source, rows[c])->0,
            ),
        forall|c: int|
            rows[p].kind == "interface_declaration"@ && #[trigger] fills(rows, p, c, "name"@)
                && row_text(source, rows[c]) is Some
                ==> scope_of(lang, rows, source, i) == scope_of(lang, rows, source, p).push(
                row_text(source, rows[c])->0,
            ),
        forall|c: int|
            rows[p].kind == "internal_module"@ && #[trigger] fills(rows, p, c, "name"@)
                && row_text(source, rows[c]) is Some
                ==> scope_of(lang, rows, source, i) == scope_of(lang, rows, source, p).push(
                row_text(source, rows[c])->0,
            ),
        rows[p].kind != "class_declaration"@ && rows[p].kind != "abstract_class_declaration"@
            && rows[p].kind != "interface_declaration"@ && rows[p].kind != "internal_module"@
            ==> scope_of(lang, rows, source, i) == scope_of(lang, rows, source, p),
{
    ts_scopes(rows[p].kind);
    parent_is_found(rows, p, i);
    assert forall|c: int| #[trigger] fills(rows, p, c, "name"@) implies child_by_field(rows, p, "name"@) == Some(c) by {
        fills_is_child(rows, p, c, "name"@);
    }
}

proof fn go_labels(kind: Seq<char>, in_method: bool)
    ensures
        kind == "function_declaration"@ ==> go_label(kind, in_method) == Some("function"@),
        kind == "method_declaration"@ ==> go_label(kind, in_method) == Some("method"@),
        kind == "method_elem"@ ==> go_label(kind, in_method) == Some("method"@),
        kind != "function_declaration"@ && kind != "method_declaration"@ && kind != "method_elem"@
            ==> go_label(kind, in_method) is None,
        kind == "type_spec"@ ==> kind != "function_declaration"@ && kind != "method_declaration"@
            && kind != "method_elem"@,
        "struct"@ != "interface"@,
        "struct_type"@ != "interface_type"@,
{
    reveal_strlit("function_declaration");
    assert("function_declaration"@.len() == 20);
    reveal_strlit("method_declaration");
    assert("method_declaration"@.len() == 18);
    reveal_strlit("method_elem");
    assert("method_elem"@.len() == 11);
    reveal_strlit("type_spec");
    assert("type_spec"@.len() == 9);
    reveal_strlit("struct_type");
    assert("struct_type"@.len() == 11);
    reveal_strlit("interface_type");
    assert("interface_type"@.len() == 14);
    reveal_strlit("struct");
    assert("struct"@.len() == 6);
    reveal_strlit("interface");
    assert("interface"@.len() == 9);
    assert("method_elem"@[0] != "struct_type"@[0]);
    assert("type_spec"@[0] != "interface"@[0]);
}

proof fn go_scopes(kind: Seq<char>)
    ensures
        kind == "type_spec"@ ==> go_scope_field(kind) == Some("name"@),
        kind != "type_spec"@ ==> go_scope_field(kind) is None,
{
    reveal_strlit("type_spec");
    assert("type_spec"@.len() == 9);
}

/// Every named Go node of one of these kinds is among the definitions, under the label
/// of its kind.
pub proof fn go_nodes_are_defined(
    lang: LangSupport,
    rows: Seq<SyntaxRowView>,
    source: Seq<char>,
    i: int,
    name: Seq<char>,
)
    requires
        lang == LangSupport::Go,
        1 <= i < rows.len(),
        is_named(rows, source, i, name),
    ensures
        rows[i].kind == "function_declaration"@ ==> defined(lang, rows, source, i, name, "function"@),
        rows[i].kind == "method_declaration"@ ==> defined(lang, rows, source, i, name, "method"@),
        rows[i].kind == "method_elem"@ ==> defined(lang, rows, source, i, name, "method"@),
        forall|c: int| rows[i].kind == "type_spec"@ && #[trigger] fills(rows, i, c, "type"@)
            && rows[c].kind == "struct_type"@
            ==> defined(lang, rows, source, i, name, "struct"@),
        forall|c: int| rows[i].kind == "type_spec"@ && #[trigger] fills(rows, i, c, "type"@)
            && rows[c].kind == "interface_type"@
            ==> defined(lang, rows, source, i, name, "interface"@),
{

    go_labels(rows[i].kind, method_context(lang, rows, i));
    assert forall|c: int| rows[i].kind == "type_spec"@
        && #[trigger] fills(rows, i, c, "type"@) implies child_by_field(
        rows,
        i,
        "type"@,
    ) == Some(c) by {
        fills_is_child(rows, i, c, "type"@);
    }
    if let Some(found) = label(lang, rows, i, method_context(lang, rows, i)) {
        labelled(lang, rows, source, i, name, found);
    }
}

/// What is among the definitions of a Go tree is a named node of one of these kinds.
pub proof fn go_definitions_are_nodes(
    lang: LangSupport,
    rows: Seq<SyntaxRowView>,
    source: Seq<char>,
    d: DefinitionView,
) -> (i: int)
    requires
        lang == LangSupport::Go,
        definitions(lang, rows, source).contains(d),
    ensures
        1 <= i < rows.len(),
        exists|name: Seq<char>| #[trigger]
            is_named(rows, source, i, name) && shows(d, lang, rows, source, i, name, d.node_kind),
        (rows[i].kind == "function_declaration"@ && d.node_kind == "function"@)
        || (rows[i].kind == "method_declaration"@ && d.node_kind == "method"@)
        || (rows[i].kind == "method_elem"@ && d.node_kind == "method"@)
        || (rows[i].kind == "type_spec"@ && (d.node_kind == "struct"@
            || d.node_kind == "interface"@) && exists|c: int| #[trigger]
                fills(rows, i, c, "type"@) && rows[c].kind == (if d.node_kind == "struct"@ {
                "struct_type"@
            } else {
                "interface_type"@
            })),
{
    let i = listed_is_node(lang, rows, source, rows.len() as int, d);

    go_labels(rows[i].kind, method_context(lang, rows, i));
    if rows[i].kind == "type_spec"@ {
        let c = child_by_field(rows, i, "type"@)->0;
        child_fills(rows, i, "type"@);
        assert(fills(rows, i, c, "type"@));
    }
    i
}

/// The names inside a Go node are qualified by its own where it is of one of these kinds,
/// and otherwise as the node itself is.
pub proof fn go_names_are_qualified(
    lang: LangSupport,
    rows: Seq<SyntaxRowView>,
    source: Seq<char>,
    p: int,
    i: int,
)
    requires
        lang == LangSupport::Go,
        0 < p,
        is_parent(rows, p, i),
    ensures
        forall|c: int|
            rows[p].kind == "type_spec"@ && #[trigger] fills(rows, p, c, "name"@)
                && row_text(source, rows[c]) is Some
                ==> scope_of(lang, rows, source, i) == scope_of(lang, rows, source, p).push(
                row_text(source, rows[c])->0,
            ),
        rows[p].kind != "type_spec"@
            ==> scope_of(lang, rows, source, i) == scope_of(lang, rows, source, p),
{
    go_scopes(rows[p].kind);
    parent_is_found(rows, p, i);
    assert forall|c: int| #[trigger] fills(rows, p, c, "name"@) implies child_by_field(rows, p, "name"@) == Some(c) by {
        fills_is_child(rows, p, c, "name"@);
    }
}

proof fn php_labels(kind: Seq<char>, in_method: bool)
    ensures
        kind == "function_definition"@ ==> php_label(kind, in_method) == Some("function"@),
        kind == "method_declaration"@ ==> php_label(kind, in_method) == Some("method"@),
        kind == "class_declaration"@ ==> php_label(kind, in_method) == Some("class"@),
        kind == "interface_declaration"@ ==> php_label(kind, in_method) == Some("interface"@),
        kind == "trait_declaration"@ ==> php_label(kind, in_method) == Some("trait"@),
        kind == "enum_declaration"@ ==> php_label(kind, in_method) == Some("enum"@),
        kind == "namespace_definition"@ ==> php_label(kind, in_method) == Some("module"@),
        kind != "function_definition"@ && kind != "method_declaration"@
            && kind != "class_declaration"@ && kind != "interface_declaration"@
            && kind != "trait_declaration"@ && kind != "enum_declaration"@
            && kind != "namespace_definition"@ ==> php_label(kind, in_method) is None,
{
    reveal_strlit("function_definition");
    assert("function_definition"@.len() == 19);
    reveal_strlit("method_declaration");
    assert("method_declaration"@.len() == 18);
    reveal_strlit("class_declaration");
    assert("class_declaration"@.len() == 17);
    reveal_strlit("interface_declaration");
    assert("interface_declaration"@.len() == 21);
    reveal_strlit("trait_declaration");
    assert("trait_declaration"@.len() == 17);
    reveal_strlit("enum_declaration");
    assert("enum_declaration"@.len() == 16);
    reveal_strlit("namespace_definition");
    assert("namespace_definition"@.len() == 20);
    assert("class_declaration"@[0] != "trait_declaration"@[0]);
}

proof fn php_scopes(kind: Seq<char>)
    ensures
        kind == "class_declaration"@ ==> php_scope_field(kind) == Some("name"@),
        kind == "interface_declaration"@ ==> php_scope_field(kind) == Some("name"@),
        kind == "trait_declaration"@ ==> php_scope_field(kind) == Some("name"@),
        kind == "enum_declaration"@ ==> php_scope_field(kind) == Some("name"@),
        kind == "namespace_definition"@ ==> php_scope_field(kind) == Some("name"@),
        kind != "class_declaration"@ && kind != "interface_declaration"@
            && kind != "trait_declaration"@ && kind != "enum_declaration"@
            && kind != "namespace_definition"@ ==> php_scope_field(kind) is None,
{
    reveal_strlit("class_declaration");
    assert("class_declaration"@.len() == 17);
    reveal_strlit("interface_declaration");
    assert("interface_declaration"@.len() == 21);
    reveal_strlit("trait_declaration");
    assert("trait_declaration"@.len() == 17);
    reveal_strlit("enum_declaration");
    assert("enum_declaration"@.len() == 16);
    reveal_strlit("namespace_definition");
    assert("namespace_definition"@.len() == 20);
    assert("class_declaration"@[0] != "trait_declaration"@[0]);
}

/// Every named PHP node of one of these kinds is among the definitions, under the label
/// of its kind.
pub proof fn php_nodes_are_defined(
    lang: LangSupport,
    rows: Seq<SyntaxRowView>,
    source: Seq<char>,
    i: int,
    name: Seq<char>,
)
    requires
        lang == LangSupport::Php,
        1 <= i < rows.len(),
        is_named(rows, source, i, name),
    ensures
        rows[i].kind == "function_definition"@ ==> defined(lang, rows, source, i, name, "function"@),
        rows[i].kind == "method_declaration"@ ==> defined(lang, rows, source, i, name, "method"@),
        rows[i].kind == "class_declaration"@ ==> defined(lang, rows, source, i, name, "class"@),
        rows[i].kind == "interface_declaration"@ ==> defined(lang, rows, source, i, name, "interface"@),
        rows[i].kind == "trait_declaration"@ ==> defined(lang, rows, source, i, name, "trait"@),
        rows[i].kind == "enum_declaration"@ ==> defined(lang, rows, source, i, name, "enum"@),
        rows[i].kind == "namespace_definition"@ ==> defined(lang, rows, source, i, name, "module"@),
{

    php_labels(rows[i].kind, method_context(lang, rows, i));
    if let Some(found) = label(lang, rows, i, method_context(lang, rows, i)) {
        labelled(lang, rows, source, i, name, found);
    }
}

/// What is among the definitions of a PHP tree is a named node of one of these kinds.
pub proof fn php_definitions_are_nodes(
    lang: LangSupport,
    rows: Seq<SyntaxRowView>,
    source: Seq<char>,
    d: DefinitionView,
) -> (i: int)
    requires
        lang == LangSupport::Php,
        definitions(lang, rows, source).contains(d),
    ensures
        1 <= i < rows.len(),
        exists|name: Seq<char>| #[trigger]
            is_named(rows, source, i, name) && shows(d, lang, rows, source, i, name, d.node_kind),
        (rows[i].kind == "function_definition"@ && d.node_kind == "function"@)
        || (rows[i].kind == "method_declaration"@ && d.node_kind == "method"@)
        || (rows[i].kind == "class_declaration"@ && d.node_kind == "class"@)
        || (rows[i].kind == "interface_declaration"@ && d.node_kind == "interface"@)
        || (rows[i].kind == "trait_declaration"@ && d.node_kind == "trait"@)
        || (rows[i].kind == "enum_declaration"@ && d.node_kind == "enum"@)
        || (rows[i].kind == "namespace_definition"@ && d.node_kind == "module"@),
{
    let i = listed_is_node(lang, rows, source, rows.len() as int, d);

    php_labels(rows[i].kind, method_context(lang, rows, i));
    i
}

/// The names inside a PHP node are qualified by its own where it is of one of these kinds,
/// and otherwise as the node itself is.
pub proof fn php_names_are_qualified(
    lang: LangSupport,
    rows: Seq<SyntaxRowView>,
    source: Seq<char>,
    p: int,
    i: int,
)
    requires
        lang == LangSupport::Php,
        0 < p,
        is_parent(rows, p, i),
    ensures
        forall|c: int|
            rows[p].kind == "class_declaration"@ && #[trigger] fills(rows, p, c, "name"@)
                && row_text(source, rows[c]) is Some
                ==> scope_of(lang, rows, source, i) == scope_of(lang, rows, source, p).push(
                row_text(source, rows[c])->0,
            ),
        forall|c: int|
            rows[p].kind == "interface_declaration"@ && #[trigger] fills(rows, p, c, "name"@)
                && row_text(source, rows[c]) is Some
                ==> scope_of(lang, rows, source, i) == scope_of(lang, rows, source, p).push(
                row_text(source, rows[c])->0,
            ),
        forall|c: int|
            rows[p].kind == "trait_declaration"@ && #[trigger] fills(rows, p, c, "name"@)
                && row_text(source, rows[c]) is Some
                ==> scope_of(lang, rows, source, i) == scope_of(lang, rows, source, p).push(
                row_text(source, rows[c])->0,
            ),
        forall|c: int|
            rows[p].kind == "enum_declaration"@ && #[trigger] fills(rows, p, c, "name"@)
                && row_text(source, rows[c]) is Some
                ==> scope_of(lang, rows, source, i) == scope_of(lang, rows, source, p).push(
                row_text(source, rows[c])->0,
            ),
        forall|c: int|
            rows[p].kind == "namespace_definition"@ && #[trigger] fills(rows, p, c, "name"@)
                && row_text(source, rows[c]) is Some
                ==> scope_of(lang, rows, source, i) == scope_of(lang, rows, source, p).push(
                row_text(source, rows[c])->0,
            ),
        rows[p].kind != "class_declaration"@ && rows[p].kind != "interface_declaration"@
            && rows[p].kind != "trait_declaration"@ && rows[p].kind != "enum_declaration"@
            && rows[p].kind != "namespace_definition"@
            ==> scope_of(lang, rows, source, i) == scope_of(lang, rows, source, p),
{
    php_scopes(rows[p].kind);
    parent_is_found(rows, p, i);
    assert forall|c: int| #[trigger] fills(rows, p, c, "name"@) implies child_by_field(rows, p, "name"@) == Some(c) by {
        fills_is_child(rows, p, c, "name"@);
    }
}

/// Node `i` stands in method context: inside a node of one of these kinds, with nothing in
/// between that ends it.
pub open spec fn in_python_type(rows: Seq<SyntaxRowView>, i: int) -> bool {
    exists|a: int| #[trigger]
        around(rows, a, i) && 0 < a && (rows[a].kind == "class_definition"@)
            && forall|b: int|
            a < b && #[trigger] around(rows, b, i) ==> rows[b].kind != "function_definition"@
}

proof fn python_contexts_differ(lang: LangSupport)
    requires
        lang == LangSupport::Python,
    ensures
        forall|kind: Seq<char>| #[trigger] opens_methods(lang, kind) ==> !resets_methods(lang, kind),
{
    reveal_strlit("class_definition");
    assert("class_definition"@.len() == 16);
    reveal_strlit("function_definition");
    assert("function_definition"@.len() == 19);
    assert forall|kind: Seq<char>| #[trigger] opens_methods(lang, kind) implies !resets_methods(lang, kind) by {}
}

proof fn python_context(lang: LangSupport, rows: Seq<SyntaxRowView>, i: int)
    requires
        lang == LangSupport::Python,
        0 <= i < rows.len(),
    ensures
        method_context(lang, rows, i) == in_python_type(rows, i),
{
    python_contexts_differ(lang);
    nearest_decides(lang, rows, i);
    if method_context(lang, rows, i) {
        let a = choose|a: int| #[trigger]
            around(rows, a, i) && 0 < a && opens_methods(lang, rows[a].kind) && clear(lang, rows, a, i);
        assert(around(rows, a, i));
    }
    if in_python_type(rows, i) {
        let a = choose|a: int| #[trigger]
            around(rows, a, i) && 0 < a && (rows[a].kind == "class_definition"@)
                && forall|b: int|
                a < b && #[trigger] around(rows, b, i) ==> rows[b].kind != "function_definition"@;
        assert(around(rows, a, i) && opens_methods(lang, rows[a].kind) && clear(lang, rows, a, i));
    }
}

proof fn python_labels(kind: Seq<char>, in_method: bool)
    ensures
        kind == "function_definition"@ ==> python_label(kind, in_method) == Some(
            if in_method {
                "method"@
            } else {
                "function"@
            },
        ),
        kind == "class_definition"@ ==> python_label(kind, in_method) == Some("class"@),
        kind != "function_definition"@ && kind != "class_definition"@
            ==> python_label(kind, in_method) is None,
{
    reveal_strlit("function_definition");
    assert("function_definition"@.len() == 19);
    reveal_strlit("class_definition");
    assert("class_definition"@.len() == 16);
}

proof fn python_scopes(kind: Seq<char>)
    ensures
        kind == "class_definition"@ ==> python_scope_field(kind) == Some("name"@),
        kind == "function_definition"@ ==> python_scope_field(kind) == Some("name"@),
        kind != "class_definition"@ && kind != "function_definition"@
            ==> python_scope_field(kind) is None,
{
    reveal_strlit("class_definition");
    assert("class_definition"@.len() == 16);
    reveal_strlit("function_definition");
    assert("function_definition"@.len() == 19);
}

/// Every named Python node of one of these kinds is among the definitions, under the label
/// of its kind.
pub proof fn python_nodes_are_defined(
    lang: LangSupport,
    rows: Seq<SyntaxRowView>,
    source: Seq<char>,
    i: int,
    name: Seq<char>,
)
    requires
        lang == LangSupport::Python,
        1 <= i < rows.len(),
        is_named(rows, source, i, name),
    ensures
        rows[i].kind == "function_definition"@
            ==> defined(lang, rows, source, i, name, if in_python_type(rows, i) {
            "method"@
        } else {
            "function"@
        }),
        rows[i].kind == "class_definition"@ ==> defined(lang, rows, source, i, name, "class"@),
{
    python_context(lang, rows, i);
    python_labels(rows[i].kind, method_context(lang, rows, i));
    if let Some(found) = label(lang, rows, i, method_context(lang, rows, i)) {
        labelled(lang, rows, source, i, name, found);
    }
}

/// What is among the definitions of a Python tree is a named node of one of these kinds.
pub proof fn python_definitions_are_nodes(
    lang: LangSupport,
    rows: Seq<SyntaxRowView>,
    source: Seq<char>,
    d: DefinitionView,
) -> (i: int)
    requires
        lang == LangSupport::Python,
        definitions(lang, rows, source).contains(d),
    ensures
        1 <= i < rows.len(),
        exists|name: Seq<char>| #[trigger]
            is_named(rows, source, i, name) && shows(d, lang, rows, source, i, name, d.node_kind),
        (rows[i].kind == "function_definition"@ && d.node_kind == (if in_python_type(rows, i) {
                "method"@
            } else {
                "function"@
            }))
        || (rows[i].kind == "class_definition"@ && d.node_kind == "class"@),
{
    let i = listed_is_node(lang, rows, source, rows.len() as int, d);
    python_context(lang, rows, i);
    python_labels(rows[i].kind, method_context(lang, rows, i));
    i
}

/// The names inside a Python node are qualified by its own where it is of one of these kinds,
/// and otherwise as the node itself is.
pub proof fn python_names_are_qualified(
    lang: LangSupport,
    rows: Seq<SyntaxRowView>,
    source: Seq<char>,
    p: int,
    i: int,
)
    requires
        lang == LangSupport::Python,
        0 < p,
        is_parent(rows, p, i),
    ensures
        forall|c: int|
            rows[p].kind == "class_definition"@ && #[trigger] fills(rows, p, c, "name"@)
                && row_text(source, rows[c]) is Some
                ==> scope_of(lang, rows, source, i) == scope_of(lang, rows, source, p).push(
                row_text(source, rows[c])->0,
            ),
        forall|c: int|
            rows[p].kind == "function_definition"@ && #[trigger] fills(rows, p, c, "name"@)
                && row_text(source, rows[c]) is Some
                ==> scope_of(lang, rows, source, i) == scope_of(lang, rows, source, p).push(
                row_text(source, rows[c])->0,
            ),
        rows[p].kind != "class_definition"@ && rows[p].kind != "function_definition"@
            ==> scope_of(lang, rows, source, i) == scope_of(lang, rows, source, p),
{
    python_scopes(rows[p].kind);
    parent_is_found(rows, p, i);
    assert forall|c: int| #[trigger] fills(rows, p, c, "name"@) implies child_by_field(rows, p, "name"@) == Some(c) by {
        fills_is_child(rows, p, c, "name"@);
    }
}

proof fn java_labels(kind: Seq<char>, in_method: bool)
    ensures
        kind == "method_declaration"@ ==> java_label(kind, in_method) == Some("method"@),
        kind == "constructor_declaration"@ ==> java_label(kind, in_method) == Some("method"@),
        kind == "compact_constructor_declaration"@ ==> java_label(kind, in_method) == Some("method"@),
        kind == "class_declaration"@ ==> java_label(kind, in_method) == Some("class"@),
        kind == "record_declaration"@ ==> java_label(kind, in_method) == Some("class"@),
        kind == "interface_declaration"@ ==> java_label(kind, in_method) == Some("interface"@),
        kind == "annotation_type_declaration"@ ==> java_label(kind, in_method) == Some("interface"@),
        kind == "enum_declaration"@ ==> java_label(kind, in_method) == Some("enum"@),
        kind != "method_declaration"@ && kind != "constructor_declaration"@
            && kind != "compact_constructor_declaration"@ && kind != "class_declaration"@
            && kind != "record_declaration"@ && kind != "interface_declaration"@
            && kind != "annotation_type_declaration"@ && kind != "enum_declaration"@
            ==> java_label(kind, in_method) is None,
{
    reveal_strlit("method_declaration");
    assert("method_declaration"@.len() == 18);
    reveal_strlit("constructor_declaration");
    assert("constructor_declaration"@.len() == 23);
    reveal_strlit("compact_constructor_declaration");
    assert("compact_constructor_declaration"@.len() == 31);
    reveal_strlit("class_declaration");
    assert("class_declaration"@.len() == 17);
    reveal_strlit("record_declaration");
    assert("record_declaration"@.len() == 18);
    reveal_strlit("interface_declaration");
    assert("interface_declaration"@.len() == 21);
    reveal_strlit("annotation_type_declaration");
    assert("annotation_type_declaration"@.len() == 27);
    reveal_strlit("enum_declaration");
    assert("enum_declaration"@.len() == 16);
    assert("method_declaration"@[0] != "record_declaration"@[0]);
}

proof fn java_scopes(kind: Seq<char>)
    ensures
        kind == "class_declaration"@ ==> java_scope_field(kind) == Some("name"@),
        kind == "record_declaration"@ ==> java_scope_field(kind) == Some("name"@),
        kind == "interface_declaration"@ ==> java_scope_field(kind) == Some("name"@),
        kind == "annotation_type_declaration"@ ==> java_scope_field(kind) == Some("name"@),
        kind == "enum_declaration"@ ==> java_scope_field(kind) == Some("name"@),
        kind != "class_declaration"@ && kind != "record_declaration"@
            && kind != "interface_declaration"@ && kind != "annotation_type_declaration"@
            && kind != "enum_declaration"@ ==> java_scope_field(kind) is None,
{
    reveal_strlit("class_declaration");
    assert("class_declaration"@.len() == 17);
    reveal_strlit("record_declaration");
    assert("record_declaration"@.len() == 18);
    reveal_strlit("interface_declaration");
    assert("interface_declaration"@.len() == 21);
    reveal_strlit("annotation_type_declaration");
    assert("annotation_type_declaration"@.len() == 27);
    reveal_strlit("enum_declaration");
    assert("enum_declaration"@.len() == 16);
}

/// Every named Java node of one of these kinds is among the definitions, under the label
/// of its kind.
pub proof fn java_nodes_are_defined(
    lang: LangSupport,
    rows: Seq<SyntaxRowView>,
    source: Seq<char>,
    i: int,
    name: Seq<char>,
)
    requires
        lang == LangSupport::Java,
        1 <= i < rows.len(),
        is_named(rows, source, i, name),
    ensures
        rows[i].kind == "method_declaration"@ ==> defined(lang, rows, source, i, name, "method"@),
        rows[i].kind == "constructor_declaration"@ ==> defined(lang, rows, source, i, name, "method"@),
        rows[i].kind == "compact_constructor_declaration"@
            ==> defined(lang, rows, source, i, name, "method"@),
        rows[i].kind == "class_declaration"@ ==> defined(lang, rows, source, i, name, "class"@),
        rows[i].kind == "record_declaration"@ ==> defined(lang, rows, source, i, name, "class"@),
        rows[i].kind == "interface_declaration"@ ==> defined(lang, rows, source, i, name, "interface"@),
        rows[i].kind == "annotation_type_declaration"@
            ==> defined(lang, rows, source, i, name, "interface"@),
        rows[i].kind == "enum_declaration"@ ==> defined(lang, rows, source, i, name, "enum"@),
{

    java_labels(rows[i].kind, method_context(lang, rows, i));
    if let Some(found) = label(lang, rows, i, method_context(lang, rows, i)) {
        labelled(lang, rows, source, i, name, found);
    }
}

/// What is among the definitions of a Java tree is a named node of one of these kinds.
pub proof fn java_definitions_are_nodes(
    lang: LangSupport,
    rows: Seq<SyntaxRowView>,
    source: Seq<char>,
    d: DefinitionView,
) -> (i: int)
    requires
        lang == LangSupport::Java,
        definitions(lang, rows, source).contains(d),
    ensures
        1 <= i < rows.len(),
        exists|name: Seq<char>| #[trigger]
            is_named(rows, source, i, name) && shows(d, lang, rows, source, i, name, d.node_kind),
        (rows[i].kind == "method_declaration"@ && d.node_kind == "method"@)
        || (rows[i].kind == "constructor_declaration"@ && d.node_kind == "method"@)
        || (rows[i].kind == "compact_constructor_declaration"@ && d.node_kind == "method"@)
        || (rows[i].kind == "class_declaration"@ && d.node_kind == "class"@)
        || (rows[i].kind == "record_declaration"@ && d.node_kind == "class"@)
        || (rows[i].kind == "interface_declaration"@ && d.node_kind == "interface"@)
        || (rows[i].kind == "annotation_type_declaration"@ && d.node_kind == "interface"@)
        || (rows[i].kind == "enum_declaration"@ && d.node_kind == "enum"@),
{
    let i = listed_is_node(lang, rows, source, rows.len() as int, d);

    java_labels(rows[i].kind, method_context(lang, rows, i));
    i
}

/// The names inside a Java node are qualified by its own where it is of one of these kinds,
/// and otherwise as the node itself is.
pub proof fn java_names_are_qualified(
    lang: LangSupport,
    rows: Seq<SyntaxRowView>,
    source: Seq<char>,
    p: int,
    i: int,
)
    requires
        lang == LangSupport::Java,
        0 < p,
        is_parent(rows, p, i),
    ensures
        forall|c: int|
            rows[p].kind == "class_declaration"@ && #[trigger] fills(rows, p, c, "name"@)
                && row_text(source, rows[c]) is Some
                ==> scope_of(lang, rows, source, i) == scope_of(lang, rows, source, p).push(
                row_text(source, rows[c])->0,
            ),
        forall|c: int|
            rows[p].kind == "record_declaration"@ && #[trigger] fills(rows, p, c, "name"@)
                && row_text(source, rows[c]) is Some
                ==> scope_of(lang, rows, source, i) == scope_of(lang, rows, source, p).push(
                row_text(source, rows[c])->0,
            ),
        forall|c: int|
            rows[p].kind == "interface_declaration"@ && #[trigger] fills(rows, p, c, "name"@)
                && row_text(source, rows[c]) is Some
                ==> scope_of(lang, rows, source, i) == scope_of(lang, rows, source, p).push(
                row_text(source, rows[c])->0,
            ),
        forall|c: int|
            rows[p].kind == "annotation_type_declaration"@ && #[trigger] fills(rows, p, c, "name"@)
                && row_text(source, rows[c]) is Some
                ==> scope_of(lang, rows, source, i) == scope_of(lang, rows, source, p).push(
                row_text(source, rows[c])->0,
            ),
        forall|c: int|
            rows[p].kind == "enum_declaration"@ && #[trigger] fills(rows, p, c, "name"@)
                && row_text(source, rows[c]) is Some
                ==> scope_of(lang, rows, source, i) == scope_of(lang, rows, source, p).push(
                row_text(source, rows[c])->0,
            ),
        rows[p].kind != "class_declaration"@ && rows[p].kind != "record_declaration"@
            && rows[p].kind != "interface_declaration"@
            && rows[p].kind != "annotation_type_declaration"@ && rows[p].kind != "enum_declaration"@
            ==> scope_of(lang, rows, source, i) == scope_of(lang, rows, source, p),
{
    java_scopes(rows[p].kind);
    parent_is_found(rows, p, i);
    assert forall|c: int| #[trigger] fills(rows, p, c, "name"@) implies child_by_field(rows, p, "name"@) == Some(c) by {
        fills_is_child(rows, p, c, "name"@);
    }
}

/// Node `i` stands in method context: inside a node of one of these kinds, with nothing in
/// between that ends it.
pub open spec fn in_ruby_type(rows: Seq<SyntaxRowView>, i: int) -> bool {
    exists|a: int| #[trigger]
        around(rows, a, i) && 0 < a && (rows[a].kind == "class"@ || rows[a].kind == "module"@
            || rows[a].kind == "singleton_class"@)
            && forall|b: int|
            a < b && #[trigger] around(rows, b, i) ==> rows[b].kind != "method"@
                && rows[b].kind != "singleton_method"@
}

proof fn ruby_contexts_differ(lang: LangSupport)
    requires
        lang == LangSupport::Ruby,
    ensures
        forall|kind: Seq<char>| #[trigger] opens_methods(lang, kind) ==> !resets_methods(lang, kind),
{
    reveal_strlit("class");
    assert("class"@.len() == 5);
    reveal_strlit("module");
    assert("module"@.len() == 6);
    reveal_strlit("singleton_class");
    assert("singleton_class"@.len() == 15);
    reveal_strlit("method");
    assert("method"@.len() == 6);
    reveal_strlit("singleton_method");
    assert("singleton_method"@.len() == 16);
    assert("module"@[1] != "method"@[1]);
    assert forall|kind: Seq<char>| #[trigger] opens_methods(lang, kind) implies !resets_methods(lang, kind) by {}
}

proof fn ruby_context(lang: LangSupport, rows: Seq<SyntaxRowView>, i: int)
    requires
        lang == LangSupport::Ruby,
        0 <= i < rows.len(),
    ensures
        method_context(lang, rows, i) == in_ruby_type(rows, i),
{
    ruby_contexts_differ(lang);
    nearest_decides(lang, rows, i);
    if method_context(lang, rows, i) {
        let a = choose|a: int| #[trigger]
            around(rows, a, i) && 0 < a && opens_methods(lang, rows[a].kind) && clear(lang, rows, a, i);
        assert(around(rows, a, i));
    }
    if in_ruby_type(rows, i) {
        let a = choose|a: int| #[trigger]
            around(rows, a, i) && 0 < a && (rows[a].kind == "class"@ || rows[a].kind == "module"@
                || rows[a].kind == "singleton_class"@)
                && forall|b: int|
                a < b && #[trigger] around(rows, b, i) ==> rows[b].kind != "method"@
                    && rows[b].kind != "singleton_method"@;
        assert(around(rows, a, i) && opens_methods(lang, rows[a].kind) && clear(lang, rows, a, i));
    }
}

proof fn ruby_labels(kind: Seq<char>, in_method: bool)
    ensures
        kind == "method"@ ==> ruby_label(kind, in_method) == Some(
            if in_method {
                "method"@
            } else {
                "function"@
            },
        ),
        kind == "singleton_method"@ ==> ruby_label(kind, in_method) == Some("method"@),
        kind == "class"@ ==> ruby_label(kind, in_method) == Some("class"@),
        kind == "module"@ ==> ruby_label(kind, in_method) == Some("module"@),
        kind != "method"@ && kind != "singleton_method"@ && kind != "class"@ && kind != "module"@
            ==> ruby_label(kind, in_method) is None,
{
    reveal_strlit("method");
    assert("method"@.len() == 6);
    reveal_strlit("singleton_method");
    assert("singleton_method"@.len() == 16);
    reveal_strlit("class");
    assert("class"@.len() == 5);
    reveal_strlit("module");
    assert("module"@.len() == 6);
    assert("method"@[1] != "module"@[1]);
}

proof fn ruby_scopes(kind: Seq<char>)
    ensures
        kind == "class"@ ==> ruby_scope_field(kind) == Some("name"@),
        kind == "module"@ ==> ruby_scope_field(kind) == Some("name"@),
        kind == "singleton_class"@ ==> ruby_scope_field(kind) == Some("value"@),
        kind != "class"@ && kind != "module"@ && kind != "singleton_class"@
            ==> ruby_scope_field(kind) is None,
{
    reveal_strlit("class");
    assert("class"@.len() == 5);
    reveal_strlit("module");
    assert("module"@.len() == 6);
    reveal_strlit("singleton_class");
    assert("singleton_class"@.len() == 15);
}

/// Every named Ruby node of one of these kinds is among the definitions, under the label
/// of its kind.
pub proof fn ruby_nodes_are_defined(
    lang: LangSupport,
    rows: Seq<SyntaxRowView>,
    source: Seq<char>,
    i: int,
    name: Seq<char>,
)
    requires
        lang == LangSupport::Ruby,
        1 <= i < rows.len(),
        is_named(rows, source, i, name),
    ensures
        rows[i].kind == "method"@ ==> defined(lang, rows, source, i, name, if in_ruby_type(rows, i) {
            "method"@
        } else {
            "function"@
        }),
        rows[i].kind == "singleton_method"@ ==> defined(lang, rows, source, i, name, "method"@),
        rows[i].kind == "class"@ ==> defined(lang, rows, source, i, name, "class"@),
        rows[i].kind == "module"@ ==> defined(lang, rows, source, i, name, "module"@),
{
    ruby_context(lang, rows, i);
    ruby_labels(rows[i].kind, method_context(lang, rows, i));
    if let Some(found) = label(lang, rows, i, method_context(lang, rows, i)) {
        labelled(lang, rows, source, i, name, found);
    }
}

/// What is among the definitions of a Ruby tree is a named node of one of these kinds.
pub proof fn ruby_definitions_are_nodes(
    lang: LangSupport,
    rows: Seq<SyntaxRowView>,
    source: Seq<char>,
    d: DefinitionView,
) -> (i: int)
    requires
        lang == LangSupport::Ruby,
        definitions(lang, rows, source).contains(d),
    ensures
        1 <= i < rows.len(),
        exists|name: Seq<char>| #[trigger]
            is_named(rows, source, i, name) && shows(d, lang, rows, source, i, name, d.node_kind),
        (rows[i].kind == "method"@ && d.node_kind == (if in_ruby_type(rows, i) {
                "method"@
            } else {
                "function"@
            }))
        || (rows[i].kind == "singleton_method"@ && d.node_kind == "method"@)
        || (rows[i].kind == "class"@ && d.node_kind == "class"@)
        || (rows[i].kind == "module"@ && d.node_kind == "module"@),
{
    let i = listed_is_node(lang, rows, source, rows.len() as int, d);
    ruby_context(lang, rows, i);
    ruby_labels(rows[i].kind, method_context(lang, rows, i));
    i
}

/// The names inside a Ruby node are qualified by its own where it is of one of these kinds,
/// and otherwise as the node itself is.
pub proof fn ruby_names_are_qualified(
    lang: LangSupport,
    rows: Seq<SyntaxRowView>,
    source: Seq<char>,
    p: int,
    i: int,
)
    requires
        lang == LangSupport::Ruby,
        0 < p,
        is_parent(rows, p, i),
    ensures
        forall|c: int|
            rows[p].kind == "class"@ && #[trigger] fills(rows, p, c, "name"@)
                && row_text(source, rows[c]) is Some
                ==> scope_of(lang, rows, source, i) == scope_of(lang, rows, source, p).push(
                row_text(source, rows[c])->0,
            ),
        forall|c: int|
            rows[p].kind == "module"@ && #[trigger] fills(rows, p, c, "name"@)
                && row_text(source, rows[c]) is Some
                ==> scope_of(lang, rows, source, i) == scope_of(lang, rows, source, p).push(
                row_text(source, rows[c])->0,
            ),
        forall|c: int|
            rows[p].kind == "singleton_class"@ && #[trigger] fills(rows, p, c, "value"@)
                && row_text(source, rows[c]) is Some
                ==> scope_of(lang, rows, source, i) == scope_of(lang, rows, source, p).push(
                row_text(source, rows[c])->0,
            ),
        rows[p].kind != "class"@ && rows[p].kind != "module"@ && rows[p].kind != "singleton_class"@
            ==> scope_of(lang, rows, source, i) == scope_of(lang, rows, source, p),
{
    ruby_scopes(rows[p].kind);
    parent_is_found(rows, p, i);
    assert forall|c: int| #[trigger] fills(rows, p, c, "name"@) implies child_by_field(rows, p, "name"@) == Some(c) by {
        fills_is_child(rows, p, c, "name"@);
    }
    assert forall|c: int| #[trigger] fills(rows, p, c, "value"@) implies child_by_field(rows, p, "value"@) == Some(c) by {
        fills_is_child(rows, p, c, "value"@);
    }
}

/// Node `c` is the first child of node `i` that has this kind.
pub open spec fn first_of_kind(rows: Seq<SyntaxRowView>, i: int, c: int, kind: Seq<char>) -> bool {
    &&& around(rows, i, c)
    &&& rows[c].depth == rows[i].depth + 1
    &&& rows[c].kind == kind
    &&& forall|b: int| i < b < c && (#[trigger] rows[b]).depth == rows[i].depth + 1
        ==> rows[b].kind != kind
}

/// Node `c` is the first named child of node `i`.
pub open spec fn first_with_name(rows: Seq<SyntaxRowView>, i: int, c: int) -> bool {
    &&& around(rows, i, c)
    &&& rows[c].depth == rows[i].depth + 1
    &&& rows[c].named
    &&& forall|b: int| i < b < c && (#[trigger] rows[b]).depth == rows[i].depth + 1 ==> !rows[b].named
}

proof fn kind_from_first(rows: Seq<SyntaxRowView>, j: int, c: int, end: int, depth: u32, kind: Seq<char>)
    requires
        j <= c < end,
        rows[c].depth == depth + 1 && rows[c].kind == kind,
        forall|b: int| j <= b < c && (#[trigger] rows[b]).depth == depth + 1 ==> rows[b].kind != kind,
    ensures
        kind_from(rows, j, end, depth, kind) == Some(c),
    decreases c - j,
{
    if j < c {
        kind_from_first(rows, j + 1, c, end, depth, kind);
    }
}

proof fn named_from_first(rows: Seq<SyntaxRowView>, j: int, c: int, end: int, depth: u32)
    requires
        j <= c < end,
        rows[c].depth == depth + 1 && rows[c].named,
        forall|b: int| j <= b < c && (#[trigger] rows[b]).depth == depth + 1 ==> !rows[b].named,
    ensures
        named_from(rows, j, end, depth) == Some(c),
    decreases c - j,
{
    if j < c {
        named_from_first(rows, j + 1, c, end, depth);
    }
}

/// The owner of a Go method is the type of its receiver; that of a pointer is what it points
/// to.
pub proof fn receivers_are_named(
    rows: Seq<SyntaxRowView>,
    source: Seq<char>,
    i: int,
    receiver: int,
    param: int,
    ty: int,
    base: int,
)
    requires
        fills(rows, i, receiver, "receiver"@),
        first_of_kind(rows, receiver, param, "parameter_declaration"@),
        fills(rows, param, ty, "type"@),
    ensures
        rows[ty].kind != "pointer_type"@ ==> go_receiver(rows, source, i) == row_text(source, rows[ty]),
        rows[ty].kind == "pointer_type"@ && first_with_name(rows, ty, base)
            ==> go_receiver(rows, source, i)
            == row_text(source, rows[base]),
{
    fills_is_child(rows, i, receiver, "receiver"@);
    subtree_is_around(rows, receiver, param);
    kind_from_first(
        rows,
        receiver + 1,
        param,
        end_of(rows, receiver),
        rows[receiver].depth,
        "parameter_declaration"@,
    );
    fills_is_child(rows, param, ty, "type"@);
    if first_with_name(rows, ty, base) {
        subtree_is_around(rows, ty, base);
        named_from_first(rows, ty + 1, base, end_of(rows, ty), rows[ty].depth);
    }
}

/// The definitions of a source text are those of its syntax tree; a text without a tree has
/// none.
pub proof fn sources_show_their_trees(lang: LangSupport, source: Seq<char>)
    ensures
        syntax(source, lang) matches Some(rows) ==> source_definitions(lang, source) == definitions(
            lang,
            rows,
            source,
        ),
        syntax(source, lang) is None ==> source_definitions(lang, source).len() == 0,
{
}

} // verus!
