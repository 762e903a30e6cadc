//! Paths as text: purely lexical, `/`-separated.
//!
//! Nothing here touches the filesystem: an anchor may name a file that does not exist
//! yet, and resolving symlinks would make the stored spelling machine-dependent.
use crate::text::{self, fields_of};
use vstd::prelude::*;

verus! {

/// A path that starts at the root of the filesystem.
pub open spec fn is_absolute(path: Seq<char>) -> bool {
    path.len() > 0 && path[0] == '/'
}

/// The pieces of a path that count, among the first `n`: empty ones do not, and `.`
/// only where it starts a relative path.
pub open spec fn pieces(fields: Seq<Seq<char>>, absolute: bool, n: int) -> Seq<Seq<char>>
    decreases n,
{
    if n <= 0 {
        Seq::empty()
    } else {
        let rest = pieces(fields, absolute, n - 1);
        let piece = fields[n - 1];
        if piece.len() == 0 || (piece == "."@ && (absolute || n > 1)) {
            rest
        } else {
            rest.push(piece)
        }
    }
}

/// The components of a path: `/` for the root of an absolute path, then each piece.
pub open spec fn components(path: Seq<char>) -> Seq<Seq<char>> {
    let fields = fields_of(path, '/');
    let body = pieces(fields, is_absolute(path), fields.len() as int);
    if is_absolute(path) {
        seq!["/"@] + body
    } else {
        body
    }
}

/// `path` taken from the directory `base`.
pub open spec fn joined_path(base: Seq<char>, path: Seq<char>) -> Seq<char> {
    if is_absolute(path) {
        path
    } else if base.len() == 0 || base.last() == '/' {
        base + path
    } else {
        base + "/"@ + path
    }
}

/// Components with `.` and `..` folded away. A `..` with nothing left to pop is kept,
/// and pops nothing of what was kept.
pub open spec fn folded(parts: Seq<Seq<char>>) -> Seq<Seq<char>>
    decreases parts.len(),
{
    if parts.len() == 0 {
        Seq::empty()
    } else {
        let out = folded(parts.drop_last());
        let last = parts.last();
        if last == "."@ {
            out
        } else if last == ".."@ {
            if out.len() > 0 && out.last() != "/"@ && out.last() != ".."@ {
                out.drop_last()
            } else {
                out.push(last)
            }
        } else {
            out.push(last)
        }
    }
}

/// Components written with `/` between them.
pub open spec fn slashed(parts: Seq<Seq<char>>) -> Seq<char>
    decreases parts.len(),
{
    if parts.len() == 0 {
        Seq::empty()
    } else {
        let out = slashed(parts.drop_last());
        let last = parts.last();
        if last == "/"@ {
            out.push('/')
        } else if out.len() == 0 || out.last() == '/' {
            out + last
        } else {
            out.push('/') + last
        }
    }
}

/// `parts` without the leading `prefix`, where it has it.
pub open spec fn without_prefix(parts: Seq<Seq<char>>, prefix: Seq<Seq<char>>) -> Seq<Seq<char>> {
    if prefix.is_prefix_of(parts) {
        parts.skip(prefix.len() as int)
    } else {
        parts
    }
}

/// The stored spelling of `path`, taken from `cwd`, in the workspace at `root`:
/// relative to the root, or absolute where it lies outside; `.` for the root itself.
pub open spec fn relative_to(root: Seq<char>, cwd: Seq<char>, path: Seq<char>) -> Seq<char> {
    let parts = folded(components(joined_path(cwd, path)));
    let out = slashed(without_prefix(parts, components(root)));
    if out.len() == 0 {
        "."@
    } else {
        out
    }
}

/// A stored spelling made into a path that can be read.
pub open spec fn readable(root: Seq<char>, stored: Seq<char>) -> Seq<char> {
    if stored == "."@ {
        root
    } else {
        joined_path(root, stored)
    }
}

/// Whether a path starts at the root of the filesystem.
pub fn starts_at_root(path: &str) -> (r: bool)
    ensures
        r == is_absolute(path@),
{
    let v = text::chars_of(path);
    v.len() > 0 && v[0] == '/'
}

/// Splits a path into components.
pub fn split_path(path: &str) -> (r: Vec<String>)
    ensures
        r.deep_view() == components(path@),
{
    let absolute = starts_at_root(path);
    let fields = text::split(path, '/');
    let ghost all = fields.deep_view();
    let mut out: Vec<String> = Vec::new();
    let ghost lead: Seq<Seq<char>> = if absolute {
        seq!["/"@]
    } else {
        Seq::empty()
    };
    if absolute {
        out.push(text::owned("/"));
    }
    assert(out.deep_view() =~= lead + pieces(all, absolute, 0));
    for i in 0..fields.len()
        invariant
            all == fields.deep_view(),
            out.deep_view() == lead + pieces(all, absolute, i as int),
    {
        let ghost before = out.deep_view();
        let piece = fields[i].as_str();
        assert(all[i as int] == piece@);
        if text::char_count(piece) == 0 || (text::same(piece, ".") && (absolute || i > 0)) {
        } else {
            out.push(fields[i].clone());
            assert(out.deep_view() =~= before.push(piece@));
            assert(lead + pieces(all, absolute, i + 1) =~= before.push(piece@));
        }
    }
    assert(out.deep_view() =~= components(path@));
    out
}

/// Takes `path` from the directory `base`.
pub fn join_path(base: &str, path: &str) -> (r: String)
    ensures
        r@ == joined_path(base@, path@),
{
    if starts_at_root(path) {
        return text::owned(path);
    }
    let b = text::chars_of(base);
    if b.len() == 0 || b[b.len() - 1] == '/' {
        text::cat(base, path)
    } else {
        text::cat3(base, "/", path)
    }
}

/// Folds `.` and `..` components lexically.
pub fn fold(parts: &Vec<String>) -> (r: Vec<String>)
    ensures
        r.deep_view() == folded(parts.deep_view()),
{
    let ghost all = parts.deep_view();
    let mut out: Vec<String> = Vec::new();
    assert(all.take(0) =~= Seq::empty());
    assert(out.deep_view() =~= Seq::empty());
    for i in 0..parts.len()
        invariant
            all == parts.deep_view(),
            out.deep_view() == folded(all.take(i as int)),
    {
        let ghost before = out.deep_view();
        assert(all.take(i + 1).drop_last() =~= all.take(i as int));
        assert(all.take(i + 1).last() == parts[i as int]@);
        let part = parts[i].as_str();
        if text::same(part, ".") {
        } else if text::same(part, "..") {
            if out.len() > 0 && !text::same(out[out.len() - 1].as_str(), "/") && !text::same(
                out[out.len() - 1].as_str(),
                "..",
            ) {
                let popped = out.pop();
                assert(out.deep_view() =~= before.drop_last());
            } else {
                out.push(parts[i].clone());
                assert(out.deep_view() =~= before.push(part@));
            }
        } else {
            out.push(parts[i].clone());
            assert(out.deep_view() =~= before.push(part@));
        }
    }
    assert(all.take(all.len() as int) =~= all);
    out
}

/// Writes components with `/` between them, from the position `from` on.
pub fn to_slash(parts: &Vec<String>, from: usize) -> (r: String)
    requires
        from <= parts.len(),
    ensures
        r@ == slashed(parts.deep_view().skip(from as int)),
{
    let ghost all = parts.deep_view().skip(from as int);
    let mut out: Vec<char> = Vec::new();
    assert(all.take(0) =~= Seq::empty());
    for i in from..parts.len()
        invariant
            from <= parts.len(),
            all == parts.deep_view().skip(from as int),
            out@ == slashed(all.take(i - from)),
    {
        assert(all.take(i + 1 - from).drop_last() =~= all.take(i - from));
        assert(all.take(i + 1 - from).last() == parts[i as int]@);
        let part = parts[i].as_str();
        if text::same(part, "/") {
            out.push('/');
        } else {
            if out.len() > 0 && out[out.len() - 1] != '/' {
                out.push('/');
            }
            let mut chars = text::chars_of(part);
            out.append(&mut chars);
        }
    }
    assert(all.take(all.len() as int) =~= all);
    text::string_of(&out)
}

/// Whether `prefix` leads `parts`.
fn leads(prefix: &Vec<String>, parts: &Vec<String>) -> (r: bool)
    ensures
        r == prefix.deep_view().is_prefix_of(parts.deep_view()),
{
    let ghost p = prefix.deep_view();
    let ghost s = parts.deep_view();
    if prefix.len() > parts.len() {
        return false;
    }
    for i in 0..prefix.len()
        invariant
            p == prefix.deep_view(),
            s == parts.deep_view(),
            prefix.len() <= parts.len(),
            forall|j: int| 0 <= j < i ==> p[j] == s[j],
    {
        assert(p[i as int] == prefix[i as int]@);
        assert(s[i as int] == parts[i as int]@);
        if !text::same(prefix[i].as_str(), parts[i].as_str()) {
            assert(s.subrange(0, p.len() as int)[i as int] == s[i as int]);
            return false;
        }
    }
    assert(p =~= s.subrange(0, p.len() as int));
    true
}

/// The stored spelling of `path`, taken from `cwd`, in the workspace at `root`.
pub fn relativize(root: &str, cwd: &str, path: &str) -> (r: String)
    ensures
        r@ == relative_to(root@, cwd@, path@),
{
    let parts = fold(&split_path(join_path(cwd, path).as_str()));
    let base = split_path(root);
    let from: usize = if leads(&base, &parts) {
        base.len()
    } else {
        0
    };
    assert(parts.deep_view().skip(0) =~= parts.deep_view());
    let out = to_slash(&parts, from);
    if text::char_count(out.as_str()) == 0 {
        text::owned(".")
    } else {
        out
    }
}

/// Makes a stored spelling into a path that can be read.
pub fn resolve_path(root: &str, stored: &str) -> (r: String)
    ensures
        r@ == readable(root@, stored@),
{
    if text::same(stored, ".") {
        text::owned(root)
    } else {
        join_path(root, stored)
    }
}

// ---- Directories above ------------------------------------------------------

/// How many directories stand on the way from a path up: the path itself, each
/// directory above it, down to the root or, for a relative path, to the empty path.
pub open spec fn ancestor_count(path: Seq<char>) -> nat {
    if is_absolute(path) {
        components(path).len()
    } else {
        components(path).len() + 1
    }
}

/// The path itself and each directory above it, nearest first.
pub open spec fn ancestors_of(path: Seq<char>) -> Seq<Seq<char>> {
    Seq::new(
        ancestor_count(path),
        |i: int|
            if i == 0 {
                path
            } else {
                slashed(components(path).take(components(path).len() - i))
            },
    )
}

/// Lists the path itself and each directory above it, nearest first.
pub fn ancestors(path: &str) -> (r: Vec<String>)
    ensures
        r.deep_view() == ancestors_of(path@),
{
    let mut parts = split_path(path);
    let ghost all = components(path@);
    let last: usize = if starts_at_root(path) {
        1
    } else {
        0
    };
    proof {
        if is_absolute(path@) {
            assert(all.len() >= 1);
        }
    }
    let mut out: Vec<String> = Vec::new();
    out.push(text::owned(path));
    assert(all.take(all.len() as int) =~= all);
    while parts.len() > last
        invariant
            last == (if is_absolute(path@) {
                1int
            } else {
                0int
            }),
            all == components(path@),
            last <= parts.len() <= all.len(),
            parts.deep_view() == all.take(parts.len() as int),
            out.len() == all.len() - parts.len() + 1,
            forall|j: int| 0 <= j < out.len() ==> (#[trigger] out[j])@ == ancestors_of(path@)[j],
        decreases parts.len(),
    {
        let ghost n = parts.len();
        let popped = parts.pop();
        assert(parts.deep_view() =~= all.take(n - 1));
        assert(parts.deep_view().skip(0) =~= parts.deep_view());
        out.push(to_slash(&parts, 0));
    }
    assert(out.deep_view() =~= ancestors_of(path@));
    out
}

// ---- Laws -------------------------------------------------------------------

/// A piece of a path that stands for itself: not empty, without `/`, and not `.`.
pub open spec fn is_plain(piece: Seq<char>) -> bool {
    piece.len() > 0 && !piece.contains('/') && piece != "."@
}

/// Pieces that all stand for themselves.
pub open spec fn all_plain(parts: Seq<Seq<char>>) -> bool {
    forall|i: int| 0 <= i < parts.len() ==> is_plain(#[trigger] parts[i])
}

/// No separator is left in a field.
proof fn fields_have_no_separator(s: Seq<char>, c: char)
    ensures
        forall|i: int| 0 <= i < fields_of(s, c).len() ==> !(#[trigger] fields_of(s, c)[i]).contains(c),
        fields_of(s, c).len() > 0,
    decreases s.len(),
{
    text::until_bound(s, c);
    let n = text::until(s, c);
    let f = fields_of(s, c);
    if n == s.len() {
        assert(f[0] == s);
        assert(!s.contains(c));
    } else {
        let rest = s.skip(n as int + 1);
        fields_have_no_separator(rest, c);
        assert(!s.take(n as int).contains(c)) by {
            if s.take(n as int).contains(c) {
                let k = s.take(n as int).index_of(c);
                assert(s[k] == c);
            }
        }
        assert forall|i: int| 0 <= i < f.len() implies !(#[trigger] f[i]).contains(c) by {
            if i > 0 {
                assert(f[i] == fields_of(rest, c)[i - 1]);
            } else {
                assert(f[0] == s.take(n as int));
            }
        }
    }
}

/// The fields of two texts with the separator between them.
proof fn fields_of_joined(a: Seq<char>, b: Seq<char>, c: char)
    ensures
        fields_of(a.push(c) + b, c) == fields_of(a, c) + fields_of(b, c),
    decreases a.len(),
{
    let s = a.push(c) + b;
    text::until_bound(a, c);
    text::until_bound(s, c);
    let n = text::until(a, c);
    until_of_joined(a, b, c);
    if n == a.len() {
        assert(s.take(n as int) =~= a);
        assert(s.skip(n as int + 1) =~= b);
        assert(fields_of(s, c) =~= seq![a] + fields_of(b, c));
    } else {
        let rest = a.skip(n as int + 1);
        fields_of_joined(rest, b, c);
        assert(s.take(n as int) =~= a.take(n as int));
        assert(s.skip(n as int + 1) =~= rest.push(c) + b);
        assert(fields_of(s, c) =~= fields_of(a, c) + fields_of(b, c));
    }
}

proof fn until_of_joined(a: Seq<char>, b: Seq<char>, c: char)
    ensures
        text::until(a.push(c) + b, c) == text::until(a, c),
    decreases a.len(),
{
    let s = a.push(c) + b;
    if a.len() == 0 {
        assert(s[0] == c);
    } else {
        assert(s[0] == a[0]);
        if a[0] != c {
            assert(s.drop_first() =~= a.drop_first().push(c) + b);
            until_of_joined(a.drop_first(), b, c);
        }
    }
}

/// The pieces of a longer list of fields.
proof fn pieces_of_joined(a: Seq<Seq<char>>, b: Seq<Seq<char>>, absolute: bool, n: int)
    requires
        a.len() > 0,
        0 <= n <= b.len(),
    ensures
        pieces(a + b, absolute, a.len() + n) == pieces(a, absolute, a.len() as int) + pieces(b, true, n),
    decreases n,
{
    if n > 0 {
        pieces_of_joined(a, b, absolute, n - 1);
        assert((a + b)[a.len() + n - 1] == b[n - 1]);
        let left = pieces(a, absolute, a.len() as int);
        assert(left + pieces(b, true, n - 1).push(b[n - 1]) =~= (left + pieces(b, true, n - 1)).push(
            b[n - 1],
        ));
    } else {
        pieces_agree(a, a + b, absolute, a.len() as int);
        assert(pieces(a, absolute, a.len() as int) + Seq::<Seq<char>>::empty() =~= pieces(
            a,
            absolute,
            a.len() as int,
        ));
    }
}

proof fn pieces_agree(a: Seq<Seq<char>>, b: Seq<Seq<char>>, absolute: bool, n: int)
    requires
        0 <= n <= a.len(),
        n <= b.len(),
        forall|i: int| 0 <= i < n ==> a[i] == b[i],
    ensures
        pieces(a, absolute, n) == pieces(b, absolute, n),
    decreases n,
{
    if n > 0 {
        pieces_agree(a, b, absolute, n - 1);
        assert(a[n - 1] == b[n - 1]);
    }
}

/// The pieces of plain fields are the fields.
proof fn pieces_of_plain(fields: Seq<Seq<char>>, absolute: bool, n: int)
    requires
        all_plain(fields),
        0 <= n <= fields.len(),
    ensures
        pieces(fields, absolute, n) == fields.take(n),
    decreases n,
{
    if n > 0 {
        pieces_of_plain(fields, absolute, n - 1);
        assert(is_plain(fields[n - 1]));
        assert(fields.take(n - 1).push(fields[n - 1]) =~= fields.take(n));
    } else {
        assert(fields.take(0) =~= Seq::empty());
    }
}

/// Pieces are not empty and hold no `/`; only the first of a relative path can be `.`.
proof fn pieces_are_plain(fields: Seq<Seq<char>>, absolute: bool, n: int)
    requires
        0 <= n <= fields.len(),
        forall|i: int| 0 <= i < fields.len() ==> !(#[trigger] fields[i]).contains('/'),
        absolute,
    ensures
        all_plain(pieces(fields, absolute, n)),
    decreases n,
{
    if n > 0 {
        pieces_are_plain(fields, absolute, n - 1);
        let rest = pieces(fields, absolute, n - 1);
        let all = pieces(fields, absolute, n);
        assert forall|i: int| 0 <= i < all.len() implies is_plain(#[trigger] all[i]) by {
            if i < rest.len() {
                assert(all[i] == rest[i]);
            }
        }
    }
}

/// The components of an absolute path: its root, then plain pieces.
pub proof fn absolute_components(path: Seq<char>)
    requires
        is_absolute(path),
    ensures
        components(path).len() > 0,
        components(path)[0] == "/"@,
        all_plain(components(path).skip(1)),
{
    fields_have_no_separator(path, '/');
    let fields = fields_of(path, '/');
    pieces_are_plain(fields, true, fields.len() as int);
    assert(components(path).skip(1) =~= pieces(fields, true, fields.len() as int));
}

/// Plain pieces written out are split into themselves again.
proof fn slashed_fields(parts: Seq<Seq<char>>)
    requires
        all_plain(parts),
        parts.len() > 0,
    ensures
        fields_of(slashed(parts), '/') == parts,
        slashed(parts).len() > 0,
        slashed(parts)[0] != '/',
        slashed(parts).last() != '/',
    decreases parts.len(),
{
    reveal_strlit("/");
    let last = parts.last();
    assert(is_plain(parts[parts.len() - 1]));
    no_slash_ends(last);
    no_slash_is_one_field(last);
    assert(last != "/"@) by {
        if last == "/"@ {
            assert(last[0] == '/');
        }
    }
    if parts.len() == 1 {
        assert(parts.drop_last() =~= Seq::empty());
        reveal_with_fuel(slashed, 2);
        assert(slashed(parts) =~= last);
        assert(parts =~= seq![last]);
    } else {
        let front = parts.drop_last();
        assert forall|i: int| 0 <= i < front.len() implies is_plain(#[trigger] front[i]) by {
            assert(is_plain(parts[i]));
        }
        slashed_fields(front);
        assert(slashed(parts) == slashed(front).push('/') + last);
        fields_of_joined(slashed(front), last, '/');
        assert(parts =~= front + seq![last]);
        assert(slashed(parts)[0] == slashed(front)[0]);
    }
}

proof fn no_slash_ends(piece: Seq<char>)
    requires
        is_plain(piece),
    ensures
        piece[0] != '/',
        piece.last() != '/',
{
    assert(piece.contains(piece[0]));
    assert(piece.contains(piece[piece.len() - 1]));
}

proof fn no_slash_is_one_field(piece: Seq<char>)
    requires
        !piece.contains('/'),
    ensures
        fields_of(piece, '/') == seq![piece],
{
    text::until_bound(piece, '/');
    let n = text::until(piece, '/');
    if n < piece.len() {
        assert(piece[n as int] == '/');
    }
}

/// Components written under an absolute base are the base's and then those.
proof fn components_under(base: Seq<char>, parts: Seq<Seq<char>>)
    requires
        is_absolute(base),
        all_plain(parts),
        parts.len() > 0,
    ensures
        components(joined_path(base, slashed(parts))) == components(base) + parts,
{
    reveal_strlit("/");
    slashed_fields(parts);
    let tail = slashed(parts);
    let path = joined_path(base, tail);
    let f = fields_of(base, '/');
    fields_have_no_separator(base, '/');
    if base.last() == '/' {
        let stem = base.drop_last();
        assert(base =~= stem.push('/') + Seq::<char>::empty());
        assert(path =~= stem.push('/') + tail);
        fields_of_joined(stem, tail, '/');
        fields_of_joined(stem, Seq::empty(), '/');
        let g = fields_of(stem, '/');
        fields_have_no_separator(stem, '/');
        let e = fields_of(Seq::<char>::empty(), '/');
        no_slash_is_one_field(Seq::<char>::empty());
        assert(f == g + e);
        pieces_of_joined(g, parts, true, parts.len() as int);
        pieces_of_joined(g, e, true, 1);
        assert(pieces(e, true, 1) =~= Seq::empty()) by {
            reveal_with_fuel(pieces, 2);
        }
        assert(pieces(f, true, f.len() as int) =~= pieces(g, true, g.len() as int));
    } else {
        assert(path =~= base.push('/') + tail);
        fields_of_joined(base, tail, '/');
        pieces_of_joined(f, parts, true, parts.len() as int);
    }
    pieces_of_plain(parts, true, parts.len() as int);
    assert(parts.take(parts.len() as int) =~= parts);
    assert(path[0] == base[0]);
    assert(components(path) =~= components(base) + parts);
}

/// An absolute list of components written out is split into itself again.
proof fn components_of_slashed(parts: Seq<Seq<char>>)
    requires
        parts.len() > 0,
        parts[0] == "/"@,
        all_plain(parts.skip(1)),
    ensures
        components(slashed(parts)) == parts,
        is_absolute(slashed(parts)),
{
    reveal_strlit("/");
    let root = seq!["/"@];
    let rest = parts.skip(1);
    assert(parts =~= root + rest);
    assert(slashed(root) =~= "/"@) by {
        reveal_with_fuel(slashed, 2);
        assert(root.drop_last() =~= Seq::empty());
    }
    assert(components("/"@) =~= root) by {
        let e = Seq::<char>::empty();
        assert("/"@ =~= e.push('/') + e);
        fields_of_joined(e, e, '/');
        no_slash_is_one_field(e);
        let f = fields_of("/"@, '/');
        assert(f =~= seq![e, e]);
        reveal_with_fuel(pieces, 3);
        assert(pieces(f, true, 2) =~= Seq::empty());
    }
    if rest.len() > 0 {
        slashed_under_root(rest);
        components_under("/"@, rest);
        assert(slashed(parts) == joined_path("/"@, slashed(rest)));
    } else {
        assert(parts =~= root);
    }
}

/// Pieces written after the root.
proof fn slashed_under_root(rest: Seq<Seq<char>>)
    requires
        all_plain(rest),
        rest.len() > 0,
    ensures
        slashed(seq!["/"@] + rest) == "/"@ + slashed(rest),
        joined_path("/"@, slashed(rest)) == "/"@ + slashed(rest),
    decreases rest.len(),
{
    reveal_strlit("/");
    let root = seq!["/"@];
    let last = rest.last();
    let front = rest.drop_last();
    slashed_fields(rest);
    assert(is_plain(rest[rest.len() - 1]));
    no_slash_ends(last);
    assert((root + rest).drop_last() =~= root + front);
    assert((root + rest).last() == last);
    if front.len() == 0 {
        assert(root + front =~= root);
        assert(root.drop_last() =~= Seq::empty());
        reveal_with_fuel(slashed, 3);
        assert(slashed(root) =~= "/"@);
        assert(slashed(front) =~= Seq::empty());
        assert(slashed(rest) =~= last);
    } else {
        assert forall|i: int| 0 <= i < front.len() implies is_plain(#[trigger] front[i]) by {
            assert(is_plain(rest[i]));
        }
        slashed_fields(front);
        slashed_under_root(front);
        let a = slashed(root + front);
        assert(a.last() == slashed(front).last());
        assert(slashed(root + rest) == a.push('/') + last);
        assert(slashed(rest) == slashed(front).push('/') + last);
        assert(slashed(root + rest) =~= "/"@ + slashed(rest));
    }
}

/// What folding leaves: pieces that were there, and no `.`; a `..` only where there
/// is nothing to pop.
pub open spec fn is_folded(parts: Seq<Seq<char>>) -> bool {
    &&& forall|i: int| 0 <= i < parts.len() ==> (#[trigger] parts[i]) != "."@
    &&& forall|i: int, j: int|
        #![trigger parts[i], parts[j]]
        0 <= i && j == i + 1 && j < parts.len() && parts[j] == ".."@ ==> parts[i] == "/"@ || parts[i]
            == ".."@
}

proof fn folded_is_folded(parts: Seq<Seq<char>>)
    ensures
        is_folded(folded(parts)),
        forall|i: int| 0 <= i < folded(parts).len() ==> parts.contains(#[trigger] folded(parts)[i]),
    decreases parts.len(),
{
    if parts.len() > 0 {
        let front = parts.drop_last();
        folded_is_folded(front);
        let out = folded(front);
        let all = folded(parts);
        assert forall|i: int| 0 <= i < all.len() implies (#[trigger] all[i]) != "."@ && parts.contains(
            all[i],
        ) by {
            if i < out.len() {
                assert(all[i] == out[i]);
                assert(front.contains(out[i]));
                assert(parts[front.index_of(out[i])] == out[i]);
            } else {
                reveal_strlit(".");
                reveal_strlit("..");
                assert(all[i] == parts.last());
                assert(parts[parts.len() - 1] == parts.last());
            }
        }
        assert forall|i: int, j: int|
            #![trigger all[i], all[j]]
            0 <= i && j == i + 1 && j < all.len() && all[j] == ".."@ implies all[i] == "/"@ || all[i]
            == ".."@ by {
            assert(all[i] == out[i]);
            if j < out.len() {
                assert(all[j] == out[j]);
            }
        }
    }
}

/// Folding is done once and for all.
pub proof fn folded_twice(parts: Seq<Seq<char>>)
    requires
        is_folded(parts),
    ensures
        folded(parts) == parts,
    decreases parts.len(),
{
    if parts.len() > 0 {
        let front = parts.drop_last();
        assert forall|i: int| 0 <= i < front.len() implies (#[trigger] front[i]) == parts[i] by {}
        folded_twice(front);
        assert(parts[parts.len() - 1] == parts.last());
        if front.len() > 0 {
            assert(front.last() == parts[parts.len() - 2]);
        }
        assert(parts =~= front.push(parts.last()));
    } else {
        assert(parts =~= Seq::empty());
    }
}

/// The root of an absolute path survives folding.
proof fn folded_keeps_root(parts: Seq<Seq<char>>)
    requires
        parts.len() > 0,
        parts[0] == "/"@,
    ensures
        folded(parts).len() > 0,
        folded(parts)[0] == "/"@,
    decreases parts.len(),
{
    reveal_strlit("/");
    reveal_strlit(".");
    reveal_strlit("..");
    let front = parts.drop_last();
    if front.len() == 0 {
        assert(front =~= Seq::empty());
        assert(folded(front) =~= Seq::empty());
        assert("/"@[0] != "."@[0]);
        assert("/"@.len() != ".."@.len());
    } else {
        folded_keeps_root(front);
        let out = folded(front);
        if out.len() == 1 {
            assert(out.last() == "/"@);
        }
    }
}

/// An absolute path, folded: the root, then plain pieces.
proof fn folded_absolute(path: Seq<char>)
    requires
        is_absolute(path),
    ensures
        ({
            let f = folded(components(path));
            f.len() > 0 && f[0] == "/"@ && all_plain(f.skip(1)) && is_folded(f)
        }),
{
    absolute_components(path);
    let parts = components(path);
    folded_is_folded(parts);
    folded_keeps_root(parts);
    folded_without_root(parts);
}

/// The root stays at the front alone.
proof fn folded_without_root(parts: Seq<Seq<char>>)
    requires
        parts.len() > 0,
        parts[0] == "/"@,
        all_plain(parts.skip(1)),
    ensures
        all_plain(folded(parts).skip(1)),
        folded(parts).len() > 0,
    decreases parts.len(),
{
    reveal_strlit("/");
    reveal_strlit(".");
    reveal_strlit("..");
    folded_keeps_root(parts);
    let front = parts.drop_last();
    if front.len() == 0 {
        assert(front =~= Seq::empty());
        assert("/"@[0] != "."@[0]);
        assert("/"@.len() != ".."@.len());
        assert(folded(front) =~= Seq::empty());
        assert(folded(parts) =~= seq!["/"@]);
        assert(folded(parts).skip(1) =~= Seq::empty());
    } else {
        assert forall|i: int| 0 <= i < front.skip(1).len() implies is_plain(#[trigger] front.skip(1)[i]) by {
            assert(is_plain(parts.skip(1)[i]));
        }
        folded_without_root(front);
        folded_keeps_root(front);
        let out = folded(front);
        let all = folded(parts);
        assert(is_plain(parts.skip(1)[parts.len() - 2]));
        assert forall|i: int| 0 <= i < all.skip(1).len() implies is_plain(#[trigger] all.skip(1)[i]) by {
            if i + 1 < out.len() {
                assert(all[i + 1] == out[i + 1]);
                assert(is_plain(out.skip(1)[i]));
            }
        }
    }
}

/// A stored spelling names the file that it was made from: read back from the root,
/// it has the components of the path that was given, folded.
pub proof fn stored_path_reads_back(root: Seq<char>, cwd: Seq<char>, path: Seq<char>)
    requires
        is_absolute(root),
        is_absolute(joined_path(cwd, path)),
    ensures
        components(readable(root, relative_to(root, cwd, path))) == folded(
            components(joined_path(cwd, path)),
        ),
{
    reveal_strlit(".");
    reveal_strlit("/");
    let f = folded(components(joined_path(cwd, path)));
    folded_absolute(joined_path(cwd, path));
    let base = components(root);
    absolute_components(root);
    let rel = without_prefix(f, base);
    if base.is_prefix_of(f) {
        assert(f =~= base + rel);
        assert forall|i: int| 0 <= i < rel.len() implies is_plain(#[trigger] rel[i]) by {
            assert(is_plain(f.skip(1)[i + base.len() - 1]));
        }
        if rel.len() == 0 {
            assert(slashed(rel) =~= Seq::empty());
            assert(f =~= base);
        } else {
            slashed_fields(rel);
            components_under(root, rel);
            let stored = slashed(rel);
            assert(stored != "."@) by {
                if stored == "."@ {
                    assert(!stored.contains('/')) by {
                        assert(stored.len() == 1 && stored[0] == '.');
                    }
                    no_slash_is_one_field(stored);
                    assert(rel[0] == stored);
                    assert(is_plain(rel[0]));
                }
            }
        }
    } else {
        components_of_slashed(f);
        assert(slashed(f)[0] == '/');
        assert(slashed(f) != "."@);
    }
}

/// The stored spelling of a stored spelling, taken from the root, is itself.
pub proof fn stored_path_is_stable(root: Seq<char>, cwd: Seq<char>, path: Seq<char>)
    requires
        is_absolute(root),
        is_folded(components(root)),
        is_absolute(joined_path(cwd, path)),
    ensures
        relative_to(root, root, relative_to(root, cwd, path)) == relative_to(root, cwd, path),
{
    reveal_strlit(".");
    let f = folded(components(joined_path(cwd, path)));
    folded_is_folded(components(joined_path(cwd, path)));
    folded_twice(f);
    stored_path_reads_back(root, cwd, path);
    let stored = relative_to(root, cwd, path);
    if stored == "."@ {
        joined_with_dot(root);
        absolute_components(root);
        folded_twice(components(root));
        let again = joined_path(root, stored);
        assert(components(again) == components(root));
        assert(without_prefix(components(root), components(root)) =~= Seq::empty());
        assert(slashed(Seq::empty()) =~= Seq::empty());
    } else {
        assert(joined_path(root, stored) == readable(root, stored));
    }
}

/// A trailing `.` adds no component.
proof fn joined_with_dot(root: Seq<char>)
    requires
        is_absolute(root),
    ensures
        components(joined_path(root, "."@)) == components(root),
{
    reveal_strlit(".");
    reveal_strlit("/");
    let dot = "."@;
    let path = joined_path(root, dot);
    assert(!dot.contains('/')) by {
        assert(dot.len() == 1 && dot[0] == '.');
    }
    no_slash_is_one_field(dot);
    let e = seq![dot];
    assert(pieces(e, true, 1) =~= Seq::empty()) by {
        reveal_with_fuel(pieces, 2);
    }
    fields_have_no_separator(root, '/');
    let f = fields_of(root, '/');
    if root.last() == '/' {
        let stem = root.drop_last();
        let none = Seq::<char>::empty();
        assert(root =~= stem.push('/') + none);
        assert(path =~= stem.push('/') + dot);
        fields_of_joined(stem, dot, '/');
        fields_of_joined(stem, none, '/');
        no_slash_is_one_field(none);
        fields_have_no_separator(stem, '/');
        let g = fields_of(stem, '/');
        pieces_of_joined(g, e, true, 1);
        pieces_of_joined(g, seq![none], true, 1);
        assert(pieces(seq![none], true, 1) =~= Seq::empty()) by {
            reveal_with_fuel(pieces, 2);
        }
    } else {
        assert(path =~= root.push('/') + dot);
        fields_of_joined(root, dot, '/');
        pieces_of_joined(f, e, true, 1);
        assert(pieces(f, true, f.len() as int) + Seq::<Seq<char>>::empty() =~= pieces(
            f,
            true,
            f.len() as int,
        ));
    }
    assert(path[0] == root[0]);
}

/// A file gets the same stored spelling from whichever directory it is named: a path
/// taken from a subdirectory is that path under the subdirectory, taken from above.
pub proof fn same_file_from_any_directory(
    root: Seq<char>,
    cwd: Seq<char>,
    sub: Seq<char>,
    path: Seq<char>,
)
    requires
        sub.len() > 0,
        !is_absolute(sub),
        !is_absolute(path),
    ensures
        relative_to(root, joined_path(cwd, sub), path) == relative_to(root, cwd, joined_path(sub, path)),
{
    reveal_strlit("/");
    let a = joined_path(joined_path(cwd, sub), path);
    let b = joined_path(cwd, joined_path(sub, path));
    assert(joined_path(sub, path)[0] == sub[0]);
    assert(joined_path(cwd, sub).last() == sub.last());
    assert(a =~= b);
}

/// A stored spelling is `.` for the root itself; a path without `.` and `..` in it,
/// relative to the root, for what lies under the root; and an absolute one for what lies
/// outside. A `..` is left only where the path climbs above the root of the filesystem.
pub proof fn stored_path_is_clean(root: Seq<char>, cwd: Seq<char>, path: Seq<char>)
    requires
        is_absolute(root),
        is_absolute(joined_path(cwd, path)),
        !folded(components(joined_path(cwd, path))).contains(".."@),
    ensures
        ({
            let f = folded(components(joined_path(cwd, path)));
            let stored = relative_to(root, cwd, path);
            &&& stored == "."@ <==> f == components(root)
            &&& components(root).is_prefix_of(f) && f != components(root) ==> !is_absolute(stored)
                && components(stored) == f.skip(components(root).len() as int)
            &&& !components(root).is_prefix_of(f) ==> is_absolute(stored) && components(stored) == f
            &&& stored != "."@ ==> !components(stored).contains("."@) && !components(stored).contains(
                ".."@,
            )
        }),
{
    reveal_strlit(".");
    reveal_strlit("/");
    let f = folded(components(joined_path(cwd, path)));
    folded_absolute(joined_path(cwd, path));
    let base = components(root);
    absolute_components(root);
    let rel = without_prefix(f, base);
    let stored = relative_to(root, cwd, path);
    if base.is_prefix_of(f) {
        assert(f =~= base + rel);
        assert forall|i: int| 0 <= i < rel.len() implies is_plain(#[trigger] rel[i]) && rel[i] != ".."@ by {
            assert(is_plain(f.skip(1)[i + base.len() - 1]));
            assert(f[i + base.len()] == rel[i]);
        }
        if rel.len() == 0 {
            assert(slashed(rel) =~= Seq::empty());
            assert(f =~= base);
        } else {
            slashed_fields(rel);
            assert(stored == slashed(rel));
            assert(stored != "."@) by {
                if stored == "."@ {
                    assert(!stored.contains('/')) by {
                        assert(stored.len() == 1 && stored[0] == '.');
                    }
                    no_slash_is_one_field(stored);
                    assert(rel[0] == stored);
                    assert(is_plain(rel[0]));
                }
            }
            pieces_of_plain(rel, false, rel.len() as int);
            assert(rel.take(rel.len() as int) =~= rel);
            assert(components(stored) =~= rel);
            assert(f.len() != base.len());
        }
    } else {
        components_of_slashed(f);
        assert(slashed(f)[0] == '/');
        assert(slashed(f) != "."@);
        assert(stored == slashed(f));
        assert(f != base) by {
            if f == base {
                assert(base.is_prefix_of(f));
            }
        }
    }
}

/// One file has one stored spelling: paths that lead to the same place, from whichever
/// directories they are taken, are spelled alike, and only those.
pub proof fn one_file_one_spelling(
    root: Seq<char>,
    a: (Seq<char>, Seq<char>),
    b: (Seq<char>, Seq<char>),
)
    requires
        is_absolute(root),
        is_absolute(joined_path(a.0, a.1)),
        is_absolute(joined_path(b.0, b.1)),
    ensures
        relative_to(root, a.0, a.1) == relative_to(root, b.0, b.1) <==> folded(
            components(joined_path(a.0, a.1)),
        ) == folded(components(joined_path(b.0, b.1))),
{
    stored_path_reads_back(root, a.0, a.1);
    stored_path_reads_back(root, b.0, b.1);
}

/// A name under a directory is one component more; an absolute path leads away from
/// wherever it is taken.
pub proof fn names_go_down(base: Seq<char>, name: Seq<char>, path: Seq<char>)
    requires
        is_absolute(base),
        name.len() > 0 && !name.contains('/') && name != seq!['.'],
    ensures
        components(joined_path(base, name)) == components(base).push(name),
        joined_path(base, name) == base.push('/') + name || joined_path(base, name) == base + name,
        path.len() > 0 && path[0] == '/' ==> joined_path(base, path) == path,
        components(seq!['/']) == seq![seq!['/']],
{
    reveal_strlit(".");
    reveal_strlit("/");
    assert("."@ =~= seq!['.']);
    assert("/"@ =~= seq!['/']);
    let parts = seq![name];
    assert(is_plain(name));
    assert(slashed(parts) =~= name) by {
        reveal_with_fuel(slashed, 2);
        assert(parts.drop_last() =~= Seq::empty());
        assert(name != "/"@) by {
            if name == "/"@ {
                assert(name[0] == '/');
                assert(name.contains('/'));
            }
        }
    }
    components_under(base, parts);
    assert(components(base) + parts =~= components(base).push(name));
    assert(joined_path(base, name) =~= base.push('/') + name || joined_path(base, name) =~= base + name) by {
        no_slash_ends(name);
    }
    let root = seq!["/"@];
    assert(all_plain(root.skip(1)));
    components_of_slashed(root);
    assert(slashed(root) =~= "/"@) by {
        reveal_with_fuel(slashed, 2);
        assert(root.drop_last() =~= Seq::empty());
    }
}

/// Folding keeps names, drops a `.`, and lets a `..` take back the name before it; one with
/// no name before it stays.
pub proof fn folding_takes_back(parts: Seq<Seq<char>>, name: Seq<char>)
    requires
        name != seq!['.'] && name != seq!['.', '.'],
    ensures
        folded(Seq::empty()) == Seq::<Seq<char>>::empty(),
        folded(parts.push(name)) == folded(parts).push(name),
        folded(parts.push(seq!['.'])) == folded(parts),
        name != seq!['/'] ==> folded(parts.push(name).push(seq!['.', '.'])) == folded(parts),
        folded(parts).len() == 0 || folded(parts).last() == seq!['/'] || folded(parts).last() == seq!['.', '.']
            ==> folded(parts.push(seq!['.', '.'])) == folded(parts).push(seq!['.', '.']),
{
    reveal_strlit(".");
    reveal_strlit("..");
    reveal_strlit("/");
    assert("."@ =~= seq!['.']);
    assert(".."@ =~= seq!['.', '.']);
    assert("/"@ =~= seq!['/']);
    assert(seq!['.'] != seq!['.', '.']) by {
        assert(seq!['.'].len() != seq!['.', '.'].len());
    }
    assert(parts.push(name).drop_last() =~= parts);
    assert(parts.push(seq!['.']).drop_last() =~= parts);
    assert(parts.push(seq!['.', '.']).drop_last() =~= parts);
    let two = parts.push(name).push(seq!['.', '.']);
    assert(two.drop_last() =~= parts.push(name));
    assert(folded(parts).push(name).drop_last() =~= folded(parts));
    assert(folded(parts.push(name)) == folded(parts).push(name));
    assert(two.last() == ".."@);
    assert(folded(parts).push(name).last() == name);
}

/// Folding what follows goes by what was folded before.
proof fn folding_goes_on(a: Seq<Seq<char>>, b: Seq<Seq<char>>, rest: Seq<Seq<char>>)
    requires
        folded(a) == folded(b),
    ensures
        folded(a + rest) == folded(b + rest),
    decreases rest.len(),
{
    if rest.len() > 0 {
        folding_goes_on(a, b, rest.drop_last());
        assert((a + rest).drop_last() =~= a + rest.drop_last());
        assert((b + rest).drop_last() =~= b + rest.drop_last());
        assert((a + rest).last() == (b + rest).last());
    } else {
        assert(a + rest =~= a);
        assert(b + rest =~= b);
    }
}

/// A path taken from a directory, led by a `..`, is the path taken from the directory above.
pub proof fn up_and_over(root: Seq<char>, cwd: Seq<char>, name: Seq<char>, parts: Seq<Seq<char>>)
    requires
        is_absolute(cwd),
        name.len() > 0 && !name.contains('/') && name != seq!['.'] && name != seq!['.', '.'],
        all_plain(parts),
        parts.len() > 0,
    ensures
        relative_to(root, joined_path(cwd, name), slashed(seq![seq!['.', '.']] + parts)) == relative_to(
            root,
            cwd,
            slashed(parts),
        ),
{
    reveal_strlit(".");
    reveal_strlit("/");
    assert("."@ =~= seq!['.']);
    let up = seq!['.', '.'];
    let all = seq![up] + parts;
    assert(is_plain(up)) by {
        assert(up[0] == '.' && up[1] == '.');
        assert(up.len() == 2 && seq!['.'].len() == 1);
        assert(!up.contains('/'));
    }
    assert forall|i: int| 0 <= i < all.len() implies is_plain(#[trigger] all[i]) by {
        if i > 0 {
            assert(all[i] == parts[i - 1]);
        }
    }
    names_go_down(cwd, name, cwd);
    let down = joined_path(cwd, name);
    assert(is_absolute(down)) by {
        assert(down[0] == cwd[0]);
    }
    components_under(down, all);
    components_under(cwd, parts);
    let base = components(cwd);
    folding_takes_back(base, name);
    assert(name != seq!['/']) by {
        if name == seq!['/'] {
            assert(name[0] == '/');
            assert(name.contains('/'));
        }
    }
    assert(base.push(name) + all =~= base.push(name).push(up) + parts);
    folding_goes_on(base.push(name).push(up), base, parts);
}

/// A file named from the root, without `.` and `..`, is stored under that name.
pub proof fn names_from_the_root_are_kept(root: Seq<char>, parts: Seq<Seq<char>>)
    requires
        is_absolute(root),
        is_folded(components(root)),
        all_plain(parts),
        !parts.contains(seq!['.', '.']),
        parts.len() > 0,
    ensures
        relative_to(root, root, slashed(parts)) == slashed(parts),
{
    reveal_strlit(".");
    reveal_strlit("..");
    assert(".."@ =~= seq!['.', '.']);
    components_under(root, parts);
    let base = components(root);
    let all = base + parts;
    assert(is_folded(all)) by {
        assert forall|i: int| 0 <= i < all.len() implies (#[trigger] all[i]) != "."@ by {
            if i < base.len() {
                assert(all[i] == base[i]);
            } else {
                assert(all[i] == parts[i - base.len()]);
                assert(is_plain(parts[i - base.len()]));
            }
        }
        assert forall|i: int, j: int|
            #![trigger all[i], all[j]]
            0 <= i && j == i + 1 && j < all.len() && all[j] == ".."@ implies all[i] == "/"@ || all[i]
            == ".."@ by {
            if j < base.len() {
                assert(all[j] == base[j] && all[i] == base[i]);
            } else {
                assert(all[j] == parts[j - base.len()]);
                assert(parts.contains(parts[j - base.len()]));
            }
        }
    }
    folded_twice(all);
    assert(base.is_prefix_of(all));
    assert(all.skip(base.len() as int) =~= parts);
    slashed_fields(parts);
}

/// The directories above an absolute path: the path itself, then each with one component
/// less, up to the root of the filesystem.
pub proof fn ancestors_go_up(path: Seq<char>, i: int)
    requires
        is_absolute(path),
        0 <= i < ancestors_of(path).len(),
    ensures
        ancestors_of(path).len() == components(path).len(),
        ancestors_of(path)[0] == path,
        components(ancestors_of(path)[i]) == components(path).take(components(path).len() - i),
        is_absolute(ancestors_of(path)[i]),
{
    let all = components(path);
    absolute_components(path);
    if i > 0 {
        let some = all.take(all.len() - i);
        assert forall|k: int| 0 <= k < some.skip(1).len() implies is_plain(#[trigger] some.skip(1)[k]) by {
            assert(is_plain(all.skip(1)[k]));
        }
        assert(some[0] == all[0]);
        components_of_slashed(some);
    } else {
        assert(all.take(all.len() as int) =~= all);
    }
}

} // verus!
