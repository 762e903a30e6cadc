//! Syntax trees as tree-sitter reports them: one row per node, in preorder.
//!
//! A row's subtree is the run of deeper rows that follows it, so a parent, a child
//! or a leaf is found by depth alone.
use crate::text;
use vstd::prelude::*;

verus! {

/// A language with node-anchoring support.
#[derive(Debug, Clone, Copy, PartialEq, Eq, Structural)]
pub enum LangSupport {
    Rust,
    TypeScript,
    Tsx,
    Go,
    Php,
    Python,
    Java,
    Ruby,
}

/// One node of a syntax tree.
#[derive(Debug, PartialEq, Eq)]
pub struct SyntaxRow {
    /// How many nodes enclose it.
    pub depth: u32,
    /// The field of its parent that it fills.
    pub field: Option<String>,
    pub kind: String,
    /// Whether it is a named node of the grammar.
    pub named: bool,
    pub start_byte: usize,
    pub end_byte: usize,
    /// Zero-based.
    pub start_row: usize,
    pub end_row: usize,
}

/// The value of a `SyntaxRow`.
pub ghost struct SyntaxRowView {
    pub depth: u32,
    pub field: Option<Seq<char>>,
    pub kind: Seq<char>,
    pub named: bool,
    pub start_byte: usize,
    pub end_byte: usize,
    pub start_row: usize,
    pub end_row: usize,
}

impl DeepView for SyntaxRow {
    type V = SyntaxRowView;

    open spec fn deep_view(&self) -> SyntaxRowView {
        SyntaxRowView {
            depth: self.depth,
            field: self.field.deep_view(),
            kind: self.kind@,
            named: self.named,
            start_byte: self.start_byte,
            end_byte: self.end_byte,
            start_row: self.start_row,
            end_row: self.end_row,
        }
    }
}

impl View for SyntaxRow {
    type V = SyntaxRowView;

    open spec fn view(&self) -> SyntaxRowView {
        self.deep_view()
    }
}

impl Clone for SyntaxRow {
    fn clone(&self) -> (r: Self)
        ensures
            r@ == self@,
    {
        SyntaxRow {
            depth: self.depth,
            field: self.field.clone(),
            kind: self.kind.clone(),
            named: self.named,
            start_byte: self.start_byte,
            end_byte: self.end_byte,
            start_row: self.start_row,
            end_row: self.end_row,
        }
    }
}

/// A syntax tree.
#[verifier::external_type_specification]
#[verifier::external_body]
pub struct ExTree(tree_sitter::Tree);

/// The nodes of a syntax tree, in preorder.
pub uninterp spec fn nodes_in(tree: tree_sitter::Tree) -> Seq<SyntaxRowView>;

/// The syntax tree of a source text, where it has one.
pub uninterp spec fn syntax(source: Seq<char>, lang: LangSupport) -> Option<Seq<SyntaxRowView>>;

/// `tree_sitter::Parser::parse` with the grammar of a language: the syntax tree of a
/// source text, or nothing where the grammar cannot be loaded or the text not parsed.
#[verifier::external_body]
fn parse_tree(source: &str, lang: LangSupport) -> (r: Option<tree_sitter::Tree>)
    ensures
        match r {
            Some(tree) => syntax(source@, lang) == Some(nodes_in(tree)),
            None => syntax(source@, lang) is None,
        },
{
    let grammar = match lang {
        LangSupport::Rust => tree_sitter_rust::LANGUAGE,
        LangSupport::TypeScript => tree_sitter_typescript::LANGUAGE_TYPESCRIPT,
        LangSupport::Tsx => tree_sitter_typescript::LANGUAGE_TSX,
        LangSupport::Go => tree_sitter_go::LANGUAGE,
        LangSupport::Php => tree_sitter_php::LANGUAGE_PHP,
        LangSupport::Python => tree_sitter_python::LANGUAGE,
        LangSupport::Java => tree_sitter_java::LANGUAGE,
        LangSupport::Ruby => tree_sitter_ruby::LANGUAGE,
    };
    let mut parser = tree_sitter::Parser::new();
    parser.set_language(&grammar.into()).ok()?;
    parser.parse(source, None)
}

/// `tree_sitter::TreeCursor::goto_descendant`, which numbers the nodes of a tree in
/// preorder: each node with its depth, the field it fills, and what
/// `tree_sitter::Node` tells of it.
#[verifier::external_body]
fn tree_rows(tree: &tree_sitter::Tree) -> (r: Vec<SyntaxRow>)
    ensures
        r.deep_view() == nodes_in(*tree),
{
    let mut at = tree.walk();
    (0..tree.root_node().descendant_count()).map(|i| {
        at.goto_descendant(i);
        let node = at.node();
        let (start, end) = (node.start_position(), node.end_position());
        SyntaxRow {
            depth: at.depth(), field: at.field_name().map(String::from),
            kind: node.kind().to_string(), named: node.is_named(),
            start_byte: node.start_byte(), end_byte: node.end_byte(),
            start_row: start.row, end_row: end.row,
        }
    }).collect()
}

/// Parses a source text.
pub fn parse(source: &str, lang: LangSupport) -> (r: Option<Vec<SyntaxRow>>)
    ensures
        r.deep_view() == syntax(source@, lang),
{
    match parse_tree(source, lang) {
        Some(tree) => Some(tree_rows(&tree)),
        None => None,
    }
}

// ---- Text of a node ---------------------------------------------------------

/// The UTF-8 bytes of a text.
pub open spec fn utf8(s: Seq<char>) -> Seq<u8> {
    vstd::utf8::encode_utf8(s)
}

/// The text between two byte positions, where both fall between characters.
pub open spec fn text_between(source: Seq<char>, start: int, end: int) -> Option<Seq<char>> {
    if 0 <= start <= end <= utf8(source).len() && vstd::utf8::is_char_boundary(utf8(source), start)
        && vstd::utf8::is_char_boundary(utf8(source), end) {
        Some(vstd::utf8::decode_utf8(utf8(source).subrange(start, end)))
    } else {
        None
    }
}

/// The text of a node.
pub open spec fn row_text(source: Seq<char>, row: SyntaxRowView) -> Option<Seq<char>> {
    text_between(source, row.start_byte as int, row.end_byte as int)
}

/// A boundary of a text is one of each longer prefix that ends at a boundary.
proof fn boundary_in_prefix(source: Seq<char>, start: int, end: int)
    requires
        0 <= start <= end <= utf8(source).len(),
        vstd::utf8::is_char_boundary(utf8(source), start),
        vstd::utf8::is_char_boundary(utf8(source), end),
    ensures
        vstd::utf8::is_char_boundary(utf8(source).subrange(0, end), start),
{
    let bytes = utf8(source);
    let head = bytes.subrange(0, end);
    vstd::utf8::encode_utf8_valid_utf8(source);
    vstd::utf8::valid_utf8_split(bytes, end);
    if start < end {
        vstd::utf8::is_char_boundary_iff_not_is_continuation_byte(bytes, start);
        vstd::utf8::is_char_boundary_iff_not_is_continuation_byte(head, start);
        assert(head[start] == bytes[start]);
    } else {
        vstd::utf8::is_char_boundary_start_end_of_seq(head);
    }
}

/// Cuts the text between two byte positions out of a source.
pub fn slice_bytes(source: &str, start: usize, end: usize) -> (r: Option<String>)
    ensures
        r.deep_view() == text_between(source@, start as int, end as int),
{
    if start > end || end > source.as_bytes().len() || !source.is_char_boundary(start)
        || !source.is_char_boundary(end) {
        return None;
    }
    let ghost bytes = utf8(source@);
    let (head, _) = source.split_at(end);
    proof {
        boundary_in_prefix(source@, start as int, end as int);
    }
    let (_, piece) = head.split_at(start);
    let out = piece.to_owned();
    proof {
        assert(utf8(out@) =~= bytes.subrange(start as int, end as int));
        vstd::utf8::encode_utf8_decode_utf8(out@);
    }
    Some(out)
}

// ---- Structure --------------------------------------------------------------

/// The last row up to `j` that is less deep than `depth`.
pub open spec fn above(rows: Seq<SyntaxRowView>, j: int, depth: u32) -> Option<int>
    decreases j + 1,
{
    if j < 0 {
        None
    } else if rows[j].depth < depth {
        Some(j)
    } else {
        above(rows, j - 1, depth)
    }
}

/// The node that encloses node `i`.
pub open spec fn parent_of(rows: Seq<SyntaxRowView>, i: int) -> Option<int> {
    above(rows, i - 1, rows[i].depth)
}

/// A parent stands before its child.
pub proof fn above_is_before(rows: Seq<SyntaxRowView>, j: int, depth: u32)
    ensures
        above(rows, j, depth) matches Some(p) ==> 0 <= p <= j && rows[p].depth < depth,
    decreases j + 1,
{
    if j >= 0 && rows[j].depth >= depth {
        above_is_before(rows, j - 1, depth);
    }
}

/// The first row from `j` on that is not deeper than `depth`, or the end.
pub open spec fn run_end(rows: Seq<SyntaxRowView>, j: int, depth: u32) -> int
    decreases rows.len() - j,
{
    if j >= rows.len() {
        rows.len() as int
    } else if rows[j].depth <= depth {
        j
    } else {
        run_end(rows, j + 1, depth)
    }
}

/// Where the subtree of node `i` ends.
pub open spec fn end_of(rows: Seq<SyntaxRowView>, i: int) -> int {
    run_end(rows, i + 1, rows[i].depth)
}

/// A subtree holds at least its root.
pub proof fn run_end_bounds(rows: Seq<SyntaxRowView>, j: int, depth: u32)
    requires
        0 <= j <= rows.len(),
    ensures
        j <= run_end(rows, j, depth) <= rows.len(),
        forall|k: int| j <= k < run_end(rows, j, depth) ==> rows[k].depth > depth,
    decreases rows.len() - j,
{
    if j < rows.len() && rows[j].depth > depth {
        run_end_bounds(rows, j + 1, depth);
    }
}

/// A node without children.
pub open spec fn is_leaf(rows: Seq<SyntaxRowView>, i: int) -> bool {
    end_of(rows, i) == i + 1
}

/// The first row from `j` up to `end` that lies just under `depth` and fills `field`.
pub open spec fn field_from(
    rows: Seq<SyntaxRowView>,
    j: int,
    end: int,
    depth: u32,
    field: Seq<char>,
) -> Option<int>
    decreases end - j,
{
    if j >= end {
        None
    } else if rows[j].depth == depth + 1 && rows[j].field == Some(field) {
        Some(j)
    } else {
        field_from(rows, j + 1, end, depth, field)
    }
}

/// The child of node `i` that fills `field`.
pub open spec fn child_by_field(rows: Seq<SyntaxRowView>, i: int, field: Seq<char>) -> Option<int> {
    field_from(rows, i + 1, end_of(rows, i), rows[i].depth, field)
}

/// The first row from `j` up to `end` that lies just under `depth` and has this kind.
pub open spec fn kind_from(
    rows: Seq<SyntaxRowView>,
    j: int,
    end: int,
    depth: u32,
    kind: Seq<char>,
) -> Option<int>
    decreases end - j,
{
    if j >= end {
        None
    } else if rows[j].depth == depth + 1 && rows[j].kind == kind {
        Some(j)
    } else {
        kind_from(rows, j + 1, end, depth, kind)
    }
}

/// The first child of node `i` with this kind.
pub open spec fn child_by_kind(rows: Seq<SyntaxRowView>, i: int, kind: Seq<char>) -> Option<int> {
    kind_from(rows, i + 1, end_of(rows, i), rows[i].depth, kind)
}

/// The first row from `j` up to `end` that lies just under `depth` and is named.
pub open spec fn named_from(rows: Seq<SyntaxRowView>, j: int, end: int, depth: u32) -> Option<int>
    decreases end - j,
{
    if j >= end {
        None
    } else if rows[j].depth == depth + 1 && rows[j].named {
        Some(j)
    } else {
        named_from(rows, j + 1, end, depth)
    }
}

/// The first named child of node `i`.
pub open spec fn first_named(rows: Seq<SyntaxRowView>, i: int) -> Option<int> {
    named_from(rows, i + 1, end_of(rows, i), rows[i].depth)
}

/// Finds the node that encloses node `i`.
pub fn parent(rows: &Vec<SyntaxRow>, i: usize) -> (r: Option<usize>)
    requires
        i < rows.len(),
    ensures
        match r {
            Some(p) => parent_of(rows.deep_view(), i as int) == Some(p as int) && p < i,
            None => parent_of(rows.deep_view(), i as int) is None,
        },
{
    let ghost s = rows.deep_view();
    let depth: u32 = rows[i].depth;
    let mut j: usize = i;
    while j > 0
        invariant
            j <= i < rows.len(),
            s == rows.deep_view(),
            depth == s[i as int].depth,
            parent_of(s, i as int) == above(s, j - 1, depth),
        decreases j,
    {
        j = j - 1;
        assert(s[j as int] == rows[j as int]@);
        if rows[j].depth < depth {
            return Some(j);
        }
    }
    None
}

/// Finds where the subtree of node `i` ends.
pub fn subtree_end(rows: &Vec<SyntaxRow>, i: usize) -> (r: usize)
    requires
        i < rows.len(),
    ensures
        r == end_of(rows.deep_view(), i as int),
        i < r <= rows.len(),
{
    let ghost s = rows.deep_view();
    let depth: u32 = rows[i].depth;
    let mut j: usize = i + 1;
    while j < rows.len() && rows[j].depth > depth
        invariant
            i < j <= rows.len(),
            s == rows.deep_view(),
            depth == s[i as int].depth,
            end_of(s, i as int) == run_end(s, j as int, depth),
        decreases rows.len() - j,
    {
        assert(s[j as int] == rows[j as int]@);
        j = j + 1;
    }
    assert(j < rows.len() ==> s[j as int] == rows[j as int]@);
    j
}

/// A row lies just under `depth`.
pub fn just_under(row: &SyntaxRow, depth: u32) -> (r: bool)
    ensures
        r == (row@.depth == depth + 1),
{
    row.depth > depth && row.depth - depth == 1
}

/// Finds the child of node `i` that fills `field`.
pub fn find_field(rows: &Vec<SyntaxRow>, i: usize, field: &str) -> (r: Option<usize>)
    requires
        i < rows.len(),
    ensures
        match r {
            Some(c) => child_by_field(rows.deep_view(), i as int, field@) == Some(c as int) && i < c
                < rows.len(),
            None => child_by_field(rows.deep_view(), i as int, field@) is None,
        },
{
    let ghost s = rows.deep_view();
    let end: usize = subtree_end(rows, i);
    for j in i + 1..end
        invariant
            i < end <= rows.len(),
            s == rows.deep_view(),
            end == end_of(s, i as int),
            child_by_field(s, i as int, field@) == field_from(s, j as int, end as int, s[i as int].depth, field@),
    {
        assert(s[j as int] == rows[j as int]@);
        assert(s[i as int] == rows[i as int]@);
        if just_under(&rows[j], rows[i].depth) && text::opt_is(&rows[j].field, field) {
            return Some(j);
        }
    }
    None
}

/// Finds the first child of node `i` with this kind.
pub fn find_kind(rows: &Vec<SyntaxRow>, i: usize, kind: &str) -> (r: Option<usize>)
    requires
        i < rows.len(),
    ensures
        match r {
            Some(c) => child_by_kind(rows.deep_view(), i as int, kind@) == Some(c as int) && i < c
                < rows.len(),
            None => child_by_kind(rows.deep_view(), i as int, kind@) is None,
        },
{
    let ghost s = rows.deep_view();
    let end: usize = subtree_end(rows, i);
    for j in i + 1..end
        invariant
            i < end <= rows.len(),
            s == rows.deep_view(),
            end == end_of(s, i as int),
            child_by_kind(s, i as int, kind@) == kind_from(s, j as int, end as int, s[i as int].depth, kind@),
    {
        assert(s[j as int] == rows[j as int]@);
        assert(s[i as int] == rows[i as int]@);
        if just_under(&rows[j], rows[i].depth) && text::same(rows[j].kind.as_str(), kind) {
            return Some(j);
        }
    }
    None
}

/// Finds the first named child of node `i`.
pub fn find_named(rows: &Vec<SyntaxRow>, i: usize) -> (r: Option<usize>)
    requires
        i < rows.len(),
    ensures
        match r {
            Some(c) => first_named(rows.deep_view(), i as int) == Some(c as int) && i < c < rows.len(),
            None => first_named(rows.deep_view(), i as int) is None,
        },
{
    let ghost s = rows.deep_view();
    let end: usize = subtree_end(rows, i);
    for j in i + 1..end
        invariant
            i < end <= rows.len(),
            s == rows.deep_view(),
            end == end_of(s, i as int),
            first_named(s, i as int) == named_from(s, j as int, end as int, s[i as int].depth),
    {
        assert(s[j as int] == rows[j as int]@);
        assert(s[i as int] == rows[i as int]@);
        if just_under(&rows[j], rows[i].depth) && rows[j].named {
            return Some(j);
        }
    }
    None
}

/// The text of node `i`.
pub fn node_text(rows: &Vec<SyntaxRow>, source: &str, i: usize) -> (r: Option<String>)
    requires
        i < rows.len(),
    ensures
        r.deep_view() == row_text(source@, rows.deep_view()[i as int]),
{
    slice_bytes(source, rows[i].start_byte, rows[i].end_byte)
}

/// The bytes of two texts put together are those of the first and then those of the second.
pub proof fn bytes_put_together(a: Seq<char>, b: Seq<char>)
    ensures
        utf8(a + b) == utf8(a) + utf8(b),
    decreases a.len(),
{
    if a.len() > 0 {
        bytes_put_together(a.drop_first(), b);
        assert((a + b).drop_first() =~= a.drop_first() + b);
        assert((a + b)[0] == a[0]);
        assert(utf8(a + b) =~= utf8(a) + utf8(b));
    } else {
        assert(a + b =~= b);
        assert(utf8(a) + utf8(b) =~= utf8(b));
    }
}

proof fn boundary_between(a: Seq<char>, b: Seq<char>)
    ensures
        vstd::utf8::is_char_boundary(utf8(a + b), utf8(a).len() as int),
{
    bytes_put_together(a, b);
    let bytes = utf8(a + b);
    vstd::utf8::encode_utf8_valid_utf8(a + b);
    vstd::utf8::is_char_boundary_start_end_of_seq(bytes);
    let n = utf8(a).len() as int;
    if n < bytes.len() {
        vstd::utf8::encode_utf8_valid_utf8(b);
        vstd::utf8::is_char_boundary_start_end_of_seq(utf8(b));
        vstd::utf8::is_char_boundary_iff_not_is_continuation_byte(utf8(b), 0);
        assert(bytes[n] == utf8(b)[0]);
        vstd::utf8::is_char_boundary_iff_not_is_continuation_byte(bytes, n);
    }
}

/// The text between two positions is what stands there: of a text in three parts, the
/// middle one stands between the end of the first and the start of the last.
pub proof fn text_stands_between(a: Seq<char>, b: Seq<char>, c: Seq<char>)
    ensures
        text_between(a + b + c, utf8(a).len() as int, (utf8(a).len() + utf8(b).len()) as int) == Some(b),
{
    let s = a + b + c;
    bytes_put_together(a + b, c);
    bytes_put_together(a, b);
    boundary_between(a + b, c);
    assert(a + (b + c) =~= s);
    boundary_between(a, b + c);
    let from = utf8(a).len() as int;
    let to = from + utf8(b).len();
    assert(utf8(s).subrange(from, to) =~= utf8(b));
    vstd::utf8::encode_utf8_decode_utf8(b);
}

} // verus!
