//! What the structural hash sees: the kind of a node, how many parameters it takes, whether
//! it gives something back, and every word that is no name and in no comment.
use crate::anchor::{
    fnv, hash_input, hash_of, hex, is_name, is_remark, le_bytes, param_count, params_from, shape, token, tokens,
};
use crate::definitions::{child_fills, fills, fills_is_child};
use crate::syntax::{
    child_by_field, end_of, is_leaf, row_text, run_end_bounds, utf8, LangSupport, SyntaxRowView,
};
use crate::text::digit_char;
use vstd::prelude::*;

verus! {

/// Which leaves are names and which nodes are comments, by the kinds that the grammars give
/// them.
pub proof fn names_and_comments(lang: LangSupport, kind: Seq<char>)
    ensures
        lang == LangSupport::Rust ==> (is_name(lang, kind) <==> kind == "identifier"@
            || kind == "type_identifier"@ || kind == "field_identifier"@
            || kind == "shorthand_field_identifier"@),
        lang == LangSupport::Rust ==> (is_remark(lang, kind) <==> kind == "line_comment"@
            || kind == "block_comment"@),
        lang == LangSupport::TypeScript || lang == LangSupport::Tsx ==> (is_name(lang, kind)
            <==> kind == "identifier"@ || kind == "type_identifier"@
            || kind == "property_identifier"@ || kind == "shorthand_property_identifier"@
            || kind == "private_property_identifier"@),
        lang == LangSupport::TypeScript || lang == LangSupport::Tsx ==> (is_remark(lang, kind)
            <==> kind == "comment"@),
        lang == LangSupport::Go ==> (is_name(lang, kind) <==> kind == "identifier"@
            || kind == "type_identifier"@ || kind == "field_identifier"@
            || kind == "package_identifier"@),
        lang == LangSupport::Go ==> (is_remark(lang, kind) <==> kind == "comment"@),
        lang == LangSupport::Php ==> (is_name(lang, kind) <==> kind == "name"@),
        lang == LangSupport::Php ==> (is_remark(lang, kind) <==> kind == "comment"@),
        lang == LangSupport::Python ==> (is_name(lang, kind) <==> kind == "identifier"@),
        lang == LangSupport::Python ==> (is_remark(lang, kind) <==> kind == "comment"@),
        lang == LangSupport::Java ==> (is_name(lang, kind) <==> kind == "identifier"@
            || kind == "type_identifier"@),
        lang == LangSupport::Java ==> (is_remark(lang, kind) <==> kind == "line_comment"@
            || kind == "block_comment"@ || kind == "comment"@),
        lang == LangSupport::Ruby ==> (is_name(lang, kind) <==> kind == "identifier"@
            || kind == "constant"@ || kind == "instance_variable"@ || kind == "class_variable"@
            || kind == "global_variable"@ || kind == "hash_key_symbol"@),
        lang == LangSupport::Ruby ==> (is_remark(lang, kind) <==> kind == "comment"@),
{
}

/// Every name counts as the same word; any other leaf counts as what it says.
pub proof fn words_count(lang: LangSupport, source: Seq<char>, row: SyntaxRowView, other: SyntaxRowView)
    ensures
        is_name(lang, row.kind) && is_name(lang, other.kind) ==> token(lang, source, row) == token(
            lang,
            source,
            other,
        ),
        is_name(lang, row.kind) ==> token(lang, source, row) == seq![0x01u8, 0x69u8, 0x64u8, 0x1fu8],
        !is_name(lang, row.kind) ==> (row_text(source, row) matches Some(t)
            ==> token(lang, source, row) == utf8(
            t,
        ).push(0x1f)),
{
    let mark = seq!['\u{1}', 'i', 'd'];
    reveal_strlit("\u{1}id");
    assert("\u{1}id"@ =~= mark);
    ascii_is_itself(mark);
    assert(utf8(mark) =~= seq![0x01u8, 0x69u8, 0x64u8]);
}

/// ASCII characters are one byte each.
pub proof fn ascii_is_itself(s: Seq<char>)
    requires
        forall|i: int| 0 <= i < s.len() ==> (#[trigger] s[i] as u32) < 0x80,
    ensures
        utf8(s).len() == s.len(),
        forall|i: int| 0 <= i < s.len() ==> (#[trigger] utf8(s)[i]) as u32 == s[i] as u32,
    decreases s.len(),
{
    if s.len() > 0 {
        let rest = s.drop_first();
        assert forall|i: int| 0 <= i < rest.len() implies (#[trigger] rest[i] as u32) < 0x80 by {
            assert((s[i + 1] as u32) < 0x80);
        }
        ascii_is_itself(rest);
        let c = s[0] as u32;
        assert((s[0] as u32) < 0x80);
        assert((c & 0x7F) == c) by (bit_vector)
            requires
                c < 0x80,
        ;
        assert(utf8(s) == vstd::utf8::encode_scalar(c) + utf8(rest));
        assert(vstd::utf8::encode_scalar(c) =~= seq![c as u8]);
        assert forall|i: int| 0 <= i < s.len() implies (#[trigger] utf8(s)[i]) as u32 == s[i] as u32 by {
            if i > 0 {
                assert(utf8(s)[i] == utf8(rest)[i - 1]);
                assert(rest[i - 1] == s[i]);
            }
        }
    }
}

/// The words of a stretch of nodes are those of its first node and then those of the rest.
/// A comment adds nothing, and nothing that is in it does; a leaf adds its word; any other
/// node adds what is inside it.
pub proof fn words_in_order(lang: LangSupport, rows: Seq<SyntaxRowView>, source: Seq<char>, j: int, end: int)
    requires
        0 <= j < end <= rows.len(),
    ensures
        is_remark(lang, rows[j].kind) ==> tokens(lang, rows, source, j, end) == tokens(
            lang,
            rows,
            source,
            end_of(rows, j),
            end,
        ),
        !is_remark(lang, rows[j].kind) && end_of(rows, j) == j + 1
            ==> tokens(lang, rows, source, j, end)
            == token(lang, source, rows[j]) + tokens(lang, rows, source, j + 1, end),
        !is_remark(lang, rows[j].kind) && end_of(rows, j) != j + 1
            ==> tokens(lang, rows, source, j, end)
            == tokens(lang, rows, source, j + 1, end),
        tokens(lang, rows, source, end, end) == Seq::<u8>::empty(),
{
    run_end_bounds(rows, j + 1, rows[j].depth);
}

/// A word that changes changes the words of the node, whatever else is in it: the words of
/// two texts agree from a leaf on only where they agree on the leaf or the leaf is a name.
pub proof fn changed_words_show(
    lang: LangSupport,
    rows: Seq<SyntaxRowView>,
    source: Seq<char>,
    other: Seq<char>,
    j: int,
    end: int,
)
    requires
        0 <= j < end <= rows.len(),
        is_leaf(rows, j),
        !is_remark(lang, rows[j].kind),
        !is_name(lang, rows[j].kind),
        row_text(source, rows[j]) is Some && row_text(other, rows[j]) is Some,
        utf8(row_text(source, rows[j])->0).len() == utf8(row_text(other, rows[j])->0).len(),
        tokens(lang, rows, source, j, end) == tokens(lang, rows, other, j, end),
    ensures
        row_text(source, rows[j]) == row_text(other, rows[j]),
{
    let a = row_text(source, rows[j])->0;
    let b = row_text(other, rows[j])->0;
    words_in_order(lang, rows, source, j, end);
    words_in_order(lang, rows, other, j, end);
    words_count(lang, source, rows[j], rows[j]);
    words_count(lang, other, rows[j], rows[j]);
    let n = utf8(a).len() as int;
    let all = tokens(lang, rows, source, j, end);
    assert(all.take(n) =~= utf8(a));
    assert(all.take(n) =~= utf8(b));
    vstd::utf8::encode_utf8_decode_utf8(a);
    vstd::utf8::encode_utf8_decode_utf8(b);
}

/// Two nodes are hashed over the same bytes only where their kinds, their shapes and their
/// words are the same.
pub proof fn input_is_faithful(
    lang: LangSupport,
    a: Seq<SyntaxRowView>,
    s: Seq<char>,
    i: int,
    b: Seq<SyntaxRowView>,
    t: Seq<char>,
    j: int,
)
    requires
        !utf8(a[i].kind).contains(0x1e) && !utf8(b[j].kind).contains(0x1e),
        hash_input(lang, a, s, i) == hash_input(lang, b, t, j),
    ensures
        a[i].kind == b[j].kind,
        shape(lang, a, i) == shape(lang, b, j),
        tokens(lang, a, s, i, end_of(a, i)) == tokens(lang, b, t, j, end_of(b, j)),
{
    let x = utf8(a[i].kind);
    let y = utf8(b[j].kind);
    let all = hash_input(lang, a, s, i);
    let all2 = hash_input(lang, b, t, j);
    assert(all[x.len() as int] == 0x1e);
    assert(all2[y.len() as int] == 0x1e);
    if x.len() < y.len() {
        assert(all2[x.len() as int] == y[x.len() as int]);
        assert(y.contains(y[x.len() as int]));
    }
    if y.len() < x.len() {
        assert(all[y.len() as int] == x[y.len() as int]);
        assert(x.contains(x[y.len() as int]));
    }
    let n = x.len() as int;
    assert(all.take(n) =~= x && all2.take(n) =~= y);
    vstd::utf8::encode_utf8_decode_utf8(a[i].kind);
    vstd::utf8::encode_utf8_decode_utf8(b[j].kind);
    let p = le_bytes(shape(lang, a, i));
    let q = le_bytes(shape(lang, b, j));
    assert(p.len() == 4 && q.len() == 4);
    assert(all.subrange(n + 1, n + 5) =~= p && all2.subrange(n + 1, n + 5) =~= q);
    bytes_are_faithful(shape(lang, a, i), shape(lang, b, j));
    assert(all.skip(n + 6) =~= tokens(lang, a, s, i, end_of(a, i)));
    assert(all2.skip(n + 6) =~= tokens(lang, b, t, j, end_of(b, j)));
}

proof fn bytes_are_faithful(a: u32, b: u32)
    requires
        le_bytes(a) == le_bytes(b),
    ensures
        a == b,
{
    let p = le_bytes(a);
    let q = le_bytes(b);
    assert(p[0] == q[0] && p[1] == q[1] && p[2] == q[2] && p[3] == q[3]);
    assert(a == b) by (nonlinear_arith)
        requires
            a % 256 == b % 256,
            a / 256 % 256 == b / 256 % 256,
            a / 0x1_0000 % 256 == b / 0x1_0000 % 256,
            a / 0x100_0000 % 256 == b / 0x100_0000 % 256,
            0 <= a <= 0xffff_ffff,
            0 <= b <= 0xffff_ffff,
    ;
}

/// The shape of a node: twice the number of its parameters, and one more where it gives
/// something back.
pub proof fn shape_counts(lang: LangSupport, rows: Seq<SyntaxRowView>, i: int, p: int)
    requires
        0 <= i < rows.len(),
        fills(rows, i, p, "parameters"@) ==> param_count(lang, rows, p) < 0x8000_0000,
    ensures
        ({
            let gives = (exists|c: int| #[trigger] fills(rows, i, c, "return_type"@))
                || (exists|c: int| #[trigger]
                fills(rows, i, c, "result"@));
            let one: int = if gives {
                1
            } else {
                0
            };
            &&& fills(rows, i, p, "parameters"@)
                ==> shape(lang, rows, i) == 2 * param_count(lang, rows, p) + one
            &&& (forall|c: int| !#[trigger] fills(rows, i, c, "parameters"@))
                ==> shape(lang, rows, i) == one
        }),
{
    field_is_filled(rows, i, "return_type"@);
    field_is_filled(rows, i, "result"@);
    field_is_filled(rows, i, "parameters"@);
    if fills(rows, i, p, "parameters"@) {
        fills_is_child(rows, i, p, "parameters"@);
    }
}

proof fn field_is_filled(rows: Seq<SyntaxRowView>, i: int, field: Seq<char>)
    requires
        0 <= i < rows.len(),
    ensures
        child_by_field(rows, i, field) is Some <==> exists|c: int| #[trigger] fills(rows, i, c, field),
{
    child_fills(rows, i, field);
    if exists|c: int| #[trigger] fills(rows, i, c, field) {
        let c = choose|c: int| #[trigger] fills(rows, i, c, field);
        fills_is_child(rows, i, c, field);
    }
}

/// Each named child of a list that is no comment counts as one parameter, and nothing else
/// does.
pub proof fn parameters_count(lang: LangSupport, rows: Seq<SyntaxRowView>, i: int, j: int, end: int, depth: u32)
    ensures
        param_count(lang, rows, i) == params_from(lang, rows, i + 1, end_of(rows, i), rows[i].depth),
        j >= end ==> params_from(lang, rows, j, end, depth) == 0,
        j < end && rows[j].depth == depth + 1 && rows[j].named && !is_remark(lang, rows[j].kind)
            ==> params_from(lang, rows, j, end, depth) == params_from(lang, rows, j + 1, end, depth) + 1,
        j < end && !(rows[j].depth == depth + 1 && rows[j].named && !is_remark(lang, rows[j].kind))
            ==> params_from(lang, rows, j, end, depth) == params_from(lang, rows, j + 1, end, depth),
{
}

/// The hash is 64-bit FNV-1a over those bytes, in sixteen hexadecimal digits.
pub proof fn hash_is_fnv(lang: LangSupport, rows: Seq<SyntaxRowView>, source: Seq<char>, i: int, h: u64, b: u8, bytes: Seq<u8>)
    ensures
        hash_of(lang, rows, source, i) == hex(
            fnv(0xcbf2_9ce4_8422_2325, hash_input(lang, rows, source, i)) as nat,
            16,
        ),
        fnv(h, Seq::empty()) == h,
        fnv(h, bytes.push(b)) == (fnv(h, bytes) ^ (b as u64)).wrapping_mul(0x100_0000_01b3),
{
    assert(bytes.push(b).drop_last() =~= bytes);
}

/// Different numbers have different digits.
pub proof fn digits_are_faithful(a: nat, b: nat, n: nat)
    requires
        hex(a, n) == hex(b, n),
        a < pow16(n) && b < pow16(n),
    ensures
        a == b,
        hex(a, n).len() == n,
    decreases n,
{
    if n > 0 {
        let x = hex(a / 16, (n - 1) as nat);
        let y = hex(b / 16, (n - 1) as nat);
        assert(hex(a, n) == x.push(digit_char(a % 16)) && hex(b, n) == y.push(digit_char(b % 16)));
        assert(hex(a, n).drop_last() =~= x && hex(b, n).drop_last() =~= y);
        assert(hex(a, n).last() == hex(b, n).last());
        assert(x.push(digit_char(a % 16)).last() == digit_char(a % 16));
        assert(y.push(digit_char(b % 16)).last() == digit_char(b % 16));
        assert((a % 16) as nat == a % 16 && (b % 16) as nat == b % 16);
        digit_is_faithful((a % 16) as nat, (b % 16) as nat);
        assert(a / 16 < pow16((n - 1) as nat) && b / 16 < pow16((n - 1) as nat));
        digits_are_faithful(a / 16, b / 16, (n - 1) as nat);
    }
}

proof fn digit_is_faithful(a: nat, b: nat)
    requires
        a < 16 && b < 16,
        digit_char(a) == digit_char(b),
    ensures
        a == b,
{
    assert(('0' as u32) == 48 && ('a' as u32) == 97);
    assert((digit_char(a) as u32) == (if a < 10 {
        48 + a
    } else {
        87 + a
    }));
    assert((digit_char(b) as u32) == (if b < 10 {
        48 + b
    } else {
        87 + b
    }));
}

/// Powers of sixteen.
pub open spec fn pow16(n: nat) -> nat
    decreases n,
{
    if n == 0 {
        1
    } else {
        16 * pow16((n - 1) as nat)
    }
}

} // verus!
