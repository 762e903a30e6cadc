//! Text as a sequence of characters: comparison, slicing, splitting, numbers.
//!
//! Every function here is stated over `Seq<char>`, the view of a string.
use vstd::prelude::*;

pub mod facts;

verus! {

/// `String::push` appends one character.
pub assume_specification[ String::push ](s: &mut String, c: char)
    ensures
        final(s)@ == old(s)@.push(c),
;

// ---- Characters and strings -------------------------------------------------

/// The characters of a string, in order.
pub fn chars_of(s: &str) -> (r: Vec<char>)
    ensures
        r@ == s@,
{
    let mut out: Vec<char> = Vec::new();
    for c in it: s.chars()
        invariant
            out@ == it.seq().take(it.index()),
            it.seq() == s@,
    {
        out.push(c);
        assert(it.seq().take(it.index() + 1) =~= it.seq().take(it.index()).push(c));
    }
    assert(s@.take(s@.len() as int) =~= s@);
    out
}

/// The string made of the characters `v[from..to]`.
pub fn string_between(v: &Vec<char>, from: usize, to: usize) -> (r: String)
    requires
        from <= to <= v.len(),
    ensures
        r@ == v@.subrange(from as int, to as int),
{
    let mut out = String::new();
    for i in from..to
        invariant
            from <= to <= v.len(),
            out@ == v@.subrange(from as int, i as int),
    {
        out.push(v[i]);
        assert(v@.subrange(from as int, i + 1) =~= v@.subrange(from as int, i as int).push(
            v@[i as int],
        ));
    }
    out
}

/// The string made of the characters of `v`.
pub fn string_of(v: &Vec<char>) -> (r: String)
    ensures
        r@ == v@,
{
    let r = string_between(v, 0, v.len());
    assert(v@.subrange(0, v@.len() as int) =~= v@);
    r
}

/// An owned copy.
pub fn owned(s: &str) -> (r: String)
    ensures
        r@ == s@,
{
    s.to_owned()
}

/// An owned copy of an optional string.
pub fn owned_opt(s: &Option<&str>) -> (r: Option<String>)
    ensures
        r.deep_view() == s.deep_view(),
{
    match s {
        Some(t) => Some(owned(*t)),
        None => None,
    }
}

/// Whether two strings hold the same characters.
pub fn same(a: &str, b: &str) -> (r: bool)
    ensures
        r == (a@ == b@),
{
    a.to_owned() == b.to_owned()
}

/// Whether an optional string is present and equal to `b`.
pub fn opt_is(a: &Option<String>, b: &str) -> (r: bool)
    ensures
        r == (a.deep_view() == Some(b@)),
{
    match a {
        Some(x) => same(x.as_str(), b),
        None => false,
    }
}

/// Appends the characters of `s`.
pub fn push_str(out: &mut String, s: &str)
    ensures
        final(out)@ == old(out)@ + s@,
{
    let ghost before = out@;
    for c in it: s.chars()
        invariant
            out@ == before + it.seq().take(it.index()),
            it.seq() == s@,
    {
        out.push(c);
        assert(it.seq().take(it.index() + 1) =~= it.seq().take(it.index()).push(c));
        assert(out@ =~= before + it.seq().take(it.index() + 1));
    }
    assert(s@.take(s@.len() as int) =~= s@);
}

/// The concatenation of two strings.
pub fn cat(a: &str, b: &str) -> (r: String)
    ensures
        r@ == a@ + b@,
{
    let mut out = a.to_owned();
    push_str(&mut out, b);
    out
}

/// The concatenation of three strings.
pub fn cat3(a: &str, b: &str, c: &str) -> (r: String)
    ensures
        r@ == a@ + b@ + c@,
{
    let mut out = cat(a, b);
    push_str(&mut out, c);
    out
}

/// How many characters a string has.
pub fn char_count(s: &str) -> (r: usize)
    ensures
        r == s@.len(),
{
    chars_of(s).len()
}

// ---- Lexicographic order ----------------------------------------------------

/// Strict lexicographic order by character, a proper prefix first.
pub open spec fn lex_lt(a: Seq<char>, b: Seq<char>) -> bool
    decreases a.len(),
{
    if b.len() == 0 {
        false
    } else if a.len() == 0 {
        true
    } else {
        a[0] < b[0] || (a[0] == b[0] && lex_lt(a.drop_first(), b.drop_first()))
    }
}

/// `lex_lt` or equal.
pub open spec fn lex_le(a: Seq<char>, b: Seq<char>) -> bool {
    a == b || lex_lt(a, b)
}

/// No string comes before itself.
pub proof fn lex_lt_irreflexive(a: Seq<char>)
    ensures
        !lex_lt(a, a),
    decreases a.len(),
{
    if a.len() > 0 {
        lex_lt_irreflexive(a.drop_first());
    }
}

/// The order is transitive.
pub proof fn lex_lt_transitive(a: Seq<char>, b: Seq<char>, c: Seq<char>)
    requires
        lex_lt(a, b),
        lex_lt(b, c),
    ensures
        lex_lt(a, c),
    decreases a.len(),
{
    if a.len() > 0 && a[0] == b[0] && b[0] == c[0] {
        lex_lt_transitive(a.drop_first(), b.drop_first(), c.drop_first());
    }
}

/// Two different strings are ordered one way or the other.
pub proof fn lex_lt_total(a: Seq<char>, b: Seq<char>)
    ensures
        lex_lt(a, b) || lex_lt(b, a) || a == b,
    decreases a.len(),
{
    if a.len() == 0 && b.len() == 0 {
        assert(a =~= b);
    } else if a.len() > 0 && b.len() > 0 && a[0] == b[0] {
        lex_lt_total(a.drop_first(), b.drop_first());
        if a.drop_first() == b.drop_first() {
            assert(a =~= seq![a[0]] + a.drop_first());
            assert(b =~= seq![b[0]] + b.drop_first());
        }
    }
}

/// The order is asymmetric.
pub proof fn lex_lt_asymmetric(a: Seq<char>, b: Seq<char>)
    requires
        lex_lt(a, b),
    ensures
        !lex_lt(b, a),
        a != b,
{
    lex_lt_irreflexive(a);
    if lex_lt(b, a) {
        lex_lt_transitive(a, b, a);
    }
}

/// Two strings that agree up to `n` and differ there are ordered by that character.
pub proof fn lex_lt_at(a: Seq<char>, b: Seq<char>, n: int)
    requires
        0 <= n < a.len(),
        n < b.len(),
        forall|i: int| 0 <= i < n ==> a[i] == b[i],
        a[n] < b[n],
    ensures
        lex_lt(a, b),
    decreases n,
{
    if n > 0 {
        assert(a[0] == b[0]);
        assert forall|i: int| 0 <= i < n - 1 implies a.drop_first()[i] == b.drop_first()[i] by {
            assert(a[i + 1] == b[i + 1]);
        }
        lex_lt_at(a.drop_first(), b.drop_first(), n - 1);
    }
}

/// Whether `a` comes before `b`.
pub fn before(a: &str, b: &str) -> (r: bool)
    ensures
        r == lex_lt(a@, b@),
{
    let x = chars_of(a);
    let y = chars_of(b);
    let mut i: usize = 0;
    assert(a@.skip(0) =~= a@);
    assert(b@.skip(0) =~= b@);
    while i < x.len() && i < y.len() && x[i] == y[i]
        invariant
            i <= x.len(),
            i <= y.len(),
            x@ == a@,
            y@ == b@,
            lex_lt(a@, b@) == lex_lt(a@.skip(i as int), b@.skip(i as int)),
        decreases x.len() - i,
    {
        assert(a@.skip(i as int).drop_first() =~= a@.skip(i + 1));
        assert(b@.skip(i as int).drop_first() =~= b@.skip(i + 1));
        i = i + 1;
    }
    if i >= y.len() {
        false
    } else if i >= x.len() {
        true
    } else {
        x[i] < y[i]
    }
}

// ---- White space ------------------------------------------------------------

/// The characters with the Unicode property `White_Space`.
pub open spec fn is_space(c: char) -> bool {
    let n = c as u32;
    (0x9 <= n <= 0xd) || n == 0x20 || n == 0x85 || n == 0xa0 || n == 0x1680 || (0x2000 <= n
        <= 0x200a) || n == 0x2028 || n == 0x2029 || n == 0x202f || n == 0x205f || n == 0x3000
}

/// Whether a character is white space.
pub fn is_whitespace(c: char) -> (r: bool)
    ensures
        r == is_space(c),
{
    let n: u32 = c as u32;
    (0x9 <= n && n <= 0xd) || n == 0x20 || n == 0x85 || n == 0xa0 || n == 0x1680 || (0x2000 <= n
        && n <= 0x200a) || n == 0x2028 || n == 0x2029 || n == 0x202f || n == 0x205f || n == 0x3000
}

/// `s` without its leading white space.
pub open spec fn trimmed_start(s: Seq<char>) -> Seq<char>
    decreases s.len(),
{
    if s.len() > 0 && is_space(s[0]) {
        trimmed_start(s.drop_first())
    } else {
        s
    }
}

/// `s` without its trailing white space.
pub open spec fn trimmed_end(s: Seq<char>) -> Seq<char>
    decreases s.len(),
{
    if s.len() > 0 && is_space(s.last()) {
        trimmed_end(s.drop_last())
    } else {
        s
    }
}

/// `s` without white space at either end.
pub open spec fn trimmed(s: Seq<char>) -> Seq<char> {
    trimmed_end(trimmed_start(s))
}

/// Drops leading white space.
pub fn trim_start(s: &str) -> (r: String)
    ensures
        r@ == trimmed_start(s@),
{
    let v = chars_of(s);
    let mut i: usize = 0;
    assert(s@.skip(0) =~= s@);
    while i < v.len() && is_whitespace(v[i])
        invariant
            i <= v.len(),
            v@ == s@,
            trimmed_start(s@) == trimmed_start(s@.skip(i as int)),
        decreases v.len() - i,
    {
        assert(s@.skip(i as int).drop_first() =~= s@.skip(i + 1));
        i = i + 1;
    }
    assert(s@.skip(i as int) =~= s@.subrange(i as int, s@.len() as int));
    string_between(&v, i, v.len())
}

/// Drops trailing white space.
pub fn trim_end(s: &str) -> (r: String)
    ensures
        r@ == trimmed_end(s@),
{
    let v = chars_of(s);
    let mut n: usize = v.len();
    assert(s@.take(n as int) =~= s@);
    while n > 0 && is_whitespace(v[n - 1])
        invariant
            n <= v.len(),
            v@ == s@,
            trimmed_end(s@) == trimmed_end(s@.take(n as int)),
        decreases n,
    {
        assert(s@.take(n as int).drop_last() =~= s@.take(n - 1));
        n = n - 1;
    }
    assert(s@.take(n as int) =~= s@.subrange(0, n as int));
    string_between(&v, 0, n)
}

/// Drops white space at both ends.
pub fn trim(s: &str) -> (r: String)
    ensures
        r@ == trimmed(s@),
{
    trim_end(trim_start(s).as_str())
}

/// Whether a string has no character but white space.
pub fn is_blank(s: &str) -> (r: bool)
    ensures
        r == (forall|i: int| 0 <= i < s@.len() ==> is_space(#[trigger] s@[i])),
        r == (trimmed(s@).len() == 0),
{
    let v = chars_of(s);
    let ghost t = trimmed_start(s@);
    proof {
        trimmed_start_first(s@);
        trimmed_end_last(t);
    }
    for i in 0..v.len()
        invariant
            v@ == s@,
            t == trimmed_start(s@),
            t.len() > 0 ==> !is_space(t[0]),
            t.len() == 0 ==> forall|j: int| 0 <= j < s@.len() ==> is_space(#[trigger] s@[j]),
            t.len() > 0 ==> s@.contains(t[0]),
            trimmed_end(t).len() == 0 ==> forall|j: int| 0 <= j < t.len() ==> is_space(#[trigger] t[j]),
            trimmed_end(t).len() <= t.len(),
            forall|j: int| 0 <= j < i ==> is_space(#[trigger] s@[j]),
    {
        if !is_whitespace(v[i]) {
            return false;
        }
    }
    true
}

/// What is left after the leading white space starts with something else, and
/// nothing is left only of white space.
pub proof fn trimmed_start_first(s: Seq<char>)
    ensures
        trimmed_start(s).len() > 0 ==> !is_space(trimmed_start(s)[0]) && s.contains(trimmed_start(s)[0]),
        trimmed_start(s).len() == 0 ==> forall|j: int| 0 <= j < s.len() ==> is_space(#[trigger] s[j]),
        trimmed_start(s).len() <= s.len(),
    decreases s.len(),
{
    if s.len() > 0 && is_space(s[0]) {
        trimmed_start_first(s.drop_first());
        assert forall|c: char| s.drop_first().contains(c) implies s.contains(c) by {
            let k = choose|k: int| 0 <= k < s.drop_first().len() && s.drop_first()[k] == c;
            assert(s[k + 1] == c);
        }
        if trimmed_start(s).len() == 0 {
            assert forall|j: int| 0 <= j < s.len() implies is_space(#[trigger] s[j]) by {
                if j > 0 {
                    assert(s[j] == s.drop_first()[j - 1]);
                }
            }
        }
    } else if s.len() > 0 {
        assert(s.contains(s[0]));
    }
}

/// What is left before the trailing white space ends with something else.
pub proof fn trimmed_end_last(s: Seq<char>)
    ensures
        trimmed_end(s).len() > 0 ==> !is_space(trimmed_end(s).last()),
        trimmed_end(s).len() == 0 ==> forall|j: int| 0 <= j < s.len() ==> is_space(#[trigger] s[j]),
        trimmed_end(s).len() <= s.len(),
        trimmed_end(s) == s.take(trimmed_end(s).len() as int),
    decreases s.len(),
{
    if s.len() > 0 && is_space(s.last()) {
        trimmed_end_last(s.drop_last());
        assert(s.drop_last().take(trimmed_end(s).len() as int) =~= s.take(
            trimmed_end(s).len() as int,
        ));
        if trimmed_end(s).len() == 0 {
            assert forall|j: int| 0 <= j < s.len() implies is_space(#[trigger] s[j]) by {
                if j < s.len() - 1 {
                    assert(s[j] == s.drop_last()[j]);
                }
            }
        }
    } else {
        assert(s.take(s.len() as int) =~= s);
    }
}

/// How many characters stand before the first white space.
pub open spec fn word_len(s: Seq<char>) -> nat
    decreases s.len(),
{
    if s.len() == 0 || is_space(s[0]) {
        0
    } else {
        1 + word_len(s.drop_first())
    }
}

/// A word is no longer than the text it starts.
pub proof fn word_len_bound(s: Seq<char>)
    ensures
        word_len(s) <= s.len(),
    decreases s.len(),
{
    if s.len() > 0 {
        word_len_bound(s.drop_first());
    }
}

/// The maximal runs of characters that are not white space, in order.
pub open spec fn words_of(s: Seq<char>) -> Seq<Seq<char>>
    decreases s.len(),
    via words_of_decreases
{
    if s.len() == 0 {
        Seq::empty()
    } else if is_space(s[0]) {
        words_of(s.drop_first())
    } else {
        seq![s.take(word_len(s) as int)] + words_of(s.skip(word_len(s) as int))
    }
}

#[via_fn]
proof fn words_of_decreases(s: Seq<char>) {
    word_len_bound(s);
}

/// Splits at white space.
pub fn split_whitespace(s: &str) -> (r: Vec<String>)
    ensures
        r.deep_view() == words_of(s@),
{
    let v = chars_of(s);
    let mut out: Vec<String> = Vec::new();
    let mut i: usize = 0;
    assert(s@.skip(0) =~= s@);
    assert(out.deep_view() + words_of(s@) =~= words_of(s@));
    while i < v.len()
        invariant
            i <= v.len(),
            v@ == s@,
            out.deep_view() + words_of(s@.skip(i as int)) == words_of(s@),
        decreases v.len() - i,
    {
        let ghost rest = s@.skip(i as int);
        if is_whitespace(v[i]) {
            assert(rest.drop_first() =~= s@.skip(i + 1));
            i = i + 1;
        } else {
            let start: usize = i;
            let ghost whole = word_len(rest);
            while i < v.len() && !is_whitespace(v[i])
                invariant
                    start <= i <= v.len(),
                    v@ == s@,
                    whole == (i - start) + word_len(s@.skip(i as int)),
                decreases v.len() - i,
            {
                assert(s@.skip(i as int).drop_first() =~= s@.skip(i + 1));
                i = i + 1;
            }
            let w = string_between(&v, start, i);
            assert(w@ =~= rest.take(whole as int));
            assert(rest.skip(whole as int) =~= s@.skip(i as int));
            let ghost before = out.deep_view();
            out.push(w);
            assert(out.deep_view() =~= before.push(w@));
            assert(out.deep_view() + words_of(s@.skip(i as int)) =~= before + words_of(rest));
            assert(i > start);
        }
    }
    assert(s@.skip(i as int) =~= Seq::empty());
    assert(out.deep_view() =~= out.deep_view() + words_of(s@.skip(i as int)));
    out
}

// ---- Substrings -------------------------------------------------------------

/// `pat` stands in `s` at position `i`.
pub open spec fn occurs_at(s: Seq<char>, pat: Seq<char>, i: int) -> bool {
    0 <= i && i + pat.len() <= s.len() && s.subrange(i, i + pat.len()) == pat
}

/// The first position at or after `i` where `pat` stands.
pub open spec fn first_from(s: Seq<char>, pat: Seq<char>, i: int) -> Option<int>
    decreases s.len() + 1 - i,
{
    if i + pat.len() > s.len() {
        None
    } else if occurs_at(s, pat, i) {
        Some(i)
    } else {
        first_from(s, pat, i + 1)
    }
}

/// The first position where `pat` stands.
pub open spec fn first_at(s: Seq<char>, pat: Seq<char>) -> Option<int> {
    first_from(s, pat, 0)
}

/// The last position at or before `i` where `pat` stands.
pub open spec fn last_from(s: Seq<char>, pat: Seq<char>, i: int) -> Option<int>
    decreases i + 1,
{
    if i < 0 {
        None
    } else if occurs_at(s, pat, i) {
        Some(i)
    } else {
        last_from(s, pat, i - 1)
    }
}

/// The last position where `pat` stands.
pub open spec fn last_at(s: Seq<char>, pat: Seq<char>) -> Option<int> {
    last_from(s, pat, s.len() - pat.len())
}

/// `first_from` is the least position from `i` on.
pub proof fn first_from_least(s: Seq<char>, pat: Seq<char>, i: int)
    requires
        0 <= i,
    ensures
        match first_from(s, pat, i) {
            Some(k) => i <= k && occurs_at(s, pat, k) && forall|j: int|
                i <= j < k ==> !occurs_at(s, pat, j),
            None => forall|j: int| i <= j ==> !occurs_at(s, pat, j),
        },
    decreases s.len() + 1 - i,
{
    if i + pat.len() > s.len() {
    } else if occurs_at(s, pat, i) {
    } else {
        first_from_least(s, pat, i + 1);
    }
}

/// `last_from` is the greatest position up to `i`.
pub proof fn last_from_greatest(s: Seq<char>, pat: Seq<char>, i: int)
    ensures
        match last_from(s, pat, i) {
            Some(k) => 0 <= k <= i && occurs_at(s, pat, k) && forall|j: int|
                k < j <= i ==> !occurs_at(s, pat, j),
            None => forall|j: int| 0 <= j <= i ==> !occurs_at(s, pat, j),
        },
    decreases i + 1,
{
    if i >= 0 && !occurs_at(s, pat, i) {
        last_from_greatest(s, pat, i - 1);
    }
}

/// Whether `pat` stands in `v` at `i`.
pub fn matches_at(v: &Vec<char>, pat: &Vec<char>, i: usize) -> (r: bool)
    ensures
        r == occurs_at(v@, pat@, i as int),
{
    if i > v.len() || pat.len() > v.len() - i {
        return false;
    }
    for j in 0..pat.len()
        invariant
            i + pat.len() <= v.len(),
            forall|k: int| 0 <= k < j ==> v@[i + k] == pat@[k],
    {
        if v[i + j] != pat[j] {
            assert(v@.subrange(i as int, i + pat@.len())[j as int] != pat@[j as int]);
            return false;
        }
    }
    assert(v@.subrange(i as int, i + pat@.len()) =~= pat@);
    true
}

/// The first position of `pat` in `s`, counted in characters.
pub fn find(s: &str, pat: &str) -> (r: Option<usize>)
    ensures
        match r {
            Some(i) => first_at(s@, pat@) == Some(i as int),
            None => first_at(s@, pat@) is None,
        },
{
    find_from(s, pat, 0)
}

/// The first position of `pat` in `s` at or after `from`, counted in characters.
pub fn find_from(s: &str, pat: &str, from: usize) -> (r: Option<usize>)
    requires
        from <= s@.len(),
    ensures
        match r {
            Some(i) => first_from(s@, pat@, from as int) == Some(i as int),
            None => first_from(s@, pat@, from as int) is None,
        },
{
    let v = chars_of(s);
    let p = chars_of(pat);
    let mut i: usize = from;
    while i <= v.len() && p.len() <= v.len() - i
        invariant
            v@ == s@,
            p@ == pat@,
            i <= v.len() + 1,
            first_from(s@, pat@, from as int) == first_from(s@, pat@, i as int),
        decreases v.len() + 1 - i,
    {
        if matches_at(&v, &p, i) {
            return Some(i);
        }
        assert(first_from(s@, pat@, from as int) == first_from(s@, pat@, i + 1));
        if i == v.len() {
            return None;
        }
        i = i + 1;
    }
    None
}

/// The last position of `pat` in `s`, counted in characters.
pub fn rfind(s: &str, pat: &str) -> (r: Option<usize>)
    ensures
        match r {
            Some(i) => last_at(s@, pat@) == Some(i as int),
            None => last_at(s@, pat@) is None,
        },
{
    let v = chars_of(s);
    let p = chars_of(pat);
    if p.len() > v.len() {
        return None;
    }
    let mut i: usize = v.len() - p.len();
    loop
        invariant
            v@ == s@,
            p@ == pat@,
            i + p.len() <= v.len(),
            last_at(s@, pat@) == last_from(s@, pat@, i as int),
        decreases i,
    {
        if matches_at(&v, &p, i) {
            return Some(i);
        }
        assert(last_at(s@, pat@) == last_from(s@, pat@, i - 1));
        if i == 0 {
            return None;
        }
        i = i - 1;
    }
}

/// `s` starts with `pat`.
pub open spec fn has_prefix(s: Seq<char>, pat: Seq<char>) -> bool {
    pat.len() <= s.len() && s.take(pat.len() as int) == pat
}

/// `s` ends with `pat`.
pub open spec fn has_suffix(s: Seq<char>, pat: Seq<char>) -> bool {
    pat.len() <= s.len() && s.skip(s.len() - pat.len()) == pat
}

/// Whether `s` starts with `pat`.
pub fn starts_with(s: &str, pat: &str) -> (r: bool)
    ensures
        r == has_prefix(s@, pat@),
{
    let v = chars_of(s);
    let p = chars_of(pat);
    assert(p@.len() <= v@.len() ==> v@.take(p@.len() as int) =~= v@.subrange(0, p@.len() as int));
    matches_at(&v, &p, 0)
}

/// Whether `s` ends with `pat`.
pub fn ends_with(s: &str, pat: &str) -> (r: bool)
    ensures
        r == has_suffix(s@, pat@),
{
    let v = chars_of(s);
    let p = chars_of(pat);
    if p.len() > v.len() {
        return false;
    }
    let at: usize = v.len() - p.len();
    assert(v@.skip(at as int) =~= v@.subrange(at as int, at + p@.len()));
    matches_at(&v, &p, at)
}

/// Whether `pat` stands anywhere in `s`.
pub fn contains(s: &str, pat: &str) -> (r: bool)
    ensures
        r == (first_at(s@, pat@) is Some),
        r == exists|i: int| occurs_at(s@, pat@, i),
{
    proof {
        first_from_least(s@, pat@, 0);
    }
    find(s, pat).is_some()
}

/// The two sides of the first `sep`.
pub open spec fn parted(s: Seq<char>, sep: Seq<char>) -> Option<(Seq<char>, Seq<char>)> {
    match first_at(s, sep) {
        Some(i) => Some((s.take(i), s.skip(i + sep.len()))),
        None => None,
    }
}

/// The two sides of the last `sep`.
pub open spec fn rparted(s: Seq<char>, sep: Seq<char>) -> Option<(Seq<char>, Seq<char>)> {
    match last_at(s, sep) {
        Some(i) => Some((s.take(i), s.skip(i + sep.len()))),
        None => None,
    }
}

/// Splits at the first `sep`.
pub fn split_once(s: &str, sep: &str) -> (r: Option<(String, String)>)
    ensures
        match r {
            Some((a, b)) => parted(s@, sep@) == Some((a@, b@)),
            None => parted(s@, sep@) is None,
        },
{
    proof {
        first_from_least(s@, sep@, 0);
    }
    match find(s, sep) {
        Some(i) => {
            let v = chars_of(s);
            let end: usize = v.len();
            assert(occurs_at(s@, sep@, i as int));
            let a = string_between(&v, 0, i);
            let b = string_between(&v, i + char_count(sep), end);
            assert(a@ =~= s@.take(i as int));
            assert(b@ =~= s@.skip(i + sep@.len()));
            Some((a, b))
        },
        None => None,
    }
}

/// Splits at the last `sep`.
pub fn rsplit_once(s: &str, sep: &str) -> (r: Option<(String, String)>)
    ensures
        match r {
            Some((a, b)) => rparted(s@, sep@) == Some((a@, b@)),
            None => rparted(s@, sep@) is None,
        },
{
    proof {
        last_from_greatest(s@, sep@, s@.len() - sep@.len());
    }
    match rfind(s, sep) {
        Some(i) => {
            let v = chars_of(s);
            let end: usize = v.len();
            assert(occurs_at(s@, sep@, i as int));
            let a = string_between(&v, 0, i);
            let b = string_between(&v, i + char_count(sep), end);
            assert(a@ =~= s@.take(i as int));
            assert(b@ =~= s@.skip(i + sep@.len()));
            Some((a, b))
        },
        None => None,
    }
}

// ---- Fields and lines -------------------------------------------------------

/// How many characters stand before the first `c`.
pub open spec fn until(s: Seq<char>, c: char) -> nat
    decreases s.len(),
{
    if s.len() == 0 || s[0] == c {
        0
    } else {
        1 + until(s.drop_first(), c)
    }
}

/// `until` stops at `c` or at the end, and at nothing earlier.
pub proof fn until_bound(s: Seq<char>, c: char)
    ensures
        until(s, c) <= s.len(),
        until(s, c) < s.len() ==> s[until(s, c) as int] == c,
        forall|i: int| 0 <= i < until(s, c) ==> s[i] != c,
    decreases s.len(),
{
    if s.len() > 0 && s[0] != c {
        until_bound(s.drop_first(), c);
        assert forall|i: int| 0 <= i < until(s, c) implies s[i] != c by {
            if i > 0 {
                assert(s[i] == s.drop_first()[i - 1]);
            }
        }
    }
}

/// The position of the first `c` from `from` on, or the end.
pub fn index_until(v: &Vec<char>, from: usize, c: char) -> (r: usize)
    requires
        from <= v.len(),
    ensures
        from <= r <= v.len(),
        r == from + until(v@.skip(from as int), c),
{
    let mut i: usize = from;
    while i < v.len() && v[i] != c
        invariant
            from <= i <= v.len(),
            from + until(v@.skip(from as int), c) == i + until(v@.skip(i as int), c),
        decreases v.len() - i,
    {
        assert(v@.skip(i as int).drop_first() =~= v@.skip(i + 1));
        i = i + 1;
    }
    i
}

/// The pieces between the separators `c`, the empty ones kept.
pub open spec fn fields_of(s: Seq<char>, c: char) -> Seq<Seq<char>>
    decreases s.len(),
    via fields_of_decreases
{
    if until(s, c) == s.len() {
        seq![s]
    } else {
        seq![s.take(until(s, c) as int)] + fields_of(s.skip(until(s, c) as int + 1), c)
    }
}

#[via_fn]
proof fn fields_of_decreases(s: Seq<char>, c: char) {
    until_bound(s, c);
}

/// Splits at every `c`.
pub fn split(s: &str, c: char) -> (r: Vec<String>)
    ensures
        r.deep_view() == fields_of(s@, c),
{
    let v = chars_of(s);
    let mut out: Vec<String> = Vec::new();
    let mut i: usize = 0;
    assert(s@.skip(0) =~= s@);
    assert(out.deep_view() + fields_of(s@, c) =~= fields_of(s@, c));
    loop
        invariant
            i <= v.len(),
            v@ == s@,
            out.deep_view() + fields_of(s@.skip(i as int), c) == fields_of(s@, c),
        decreases v.len() - i,
    {
        let ghost rest = s@.skip(i as int);
        let ghost before = out.deep_view();
        let j: usize = index_until(&v, i, c);
        let piece = string_between(&v, i, j);
        proof {
            until_bound(rest, c);
        }
        assert(piece@ =~= rest.take(until(rest, c) as int));
        if j == v.len() {
            assert(rest.take(until(rest, c) as int) =~= rest);
            out.push(piece);
            assert(out.deep_view() =~= before + fields_of(rest, c));
            return out;
        }
        assert(rest.skip(until(rest, c) as int + 1) =~= s@.skip(j + 1));
        out.push(piece);
        assert(out.deep_view() =~= before.push(piece@));
        assert(out.deep_view() + fields_of(s@.skip(j + 1), c) =~= before + fields_of(rest, c));
        i = j + 1;
    }
}

/// `s` without one trailing carriage return.
pub open spec fn chomped(s: Seq<char>) -> Seq<char> {
    if s.len() > 0 && s.last() == '\r' {
        s.drop_last()
    } else {
        s
    }
}

/// The lines of a text: ended by `\n` or `\r\n`, the last one possibly by nothing.
pub open spec fn lines_of(s: Seq<char>) -> Seq<Seq<char>>
    decreases s.len(),
    via lines_of_decreases
{
    if s.len() == 0 {
        Seq::empty()
    } else if until(s, '\n') == s.len() {
        seq![s]
    } else {
        seq![chomped(s.take(until(s, '\n') as int))] + lines_of(s.skip(until(s, '\n') as int + 1))
    }
}

#[via_fn]
proof fn lines_of_decreases(s: Seq<char>) {
    until_bound(s, '\n');
}

/// The lines of a text.
pub fn lines(s: &str) -> (r: Vec<String>)
    ensures
        r.deep_view() == lines_of(s@),
{
    let v = chars_of(s);
    let mut out: Vec<String> = Vec::new();
    let mut i: usize = 0;
    assert(s@.skip(0) =~= s@);
    assert(out.deep_view() + lines_of(s@) =~= lines_of(s@));
    while i < v.len()
        invariant
            i <= v.len(),
            v@ == s@,
            out.deep_view() + lines_of(s@.skip(i as int)) == lines_of(s@),
        decreases v.len() - i,
    {
        let ghost rest = s@.skip(i as int);
        let ghost before = out.deep_view();
        let j: usize = index_until(&v, i, '\n');
        proof {
            until_bound(rest, '\n');
        }
        if j == v.len() {
            let piece = string_between(&v, i, j);
            assert(piece@ =~= rest);
            out.push(piece);
            assert(out.deep_view() =~= before + lines_of(rest));
            return out;
        }
        let end: usize = if j > i && v[j - 1] == '\r' {
            j - 1
        } else {
            j
        };
        let piece = string_between(&v, i, end);
        assert(piece@ =~= chomped(rest.take(until(rest, '\n') as int)));
        assert(rest.skip(until(rest, '\n') as int + 1) =~= s@.skip(j + 1));
        out.push(piece);
        assert(out.deep_view() =~= before.push(piece@));
        assert(out.deep_view() + lines_of(s@.skip(j + 1)) =~= before + lines_of(rest));
        i = j + 1;
    }
    assert(s@.skip(i as int) =~= Seq::empty());
    assert(out.deep_view() =~= out.deep_view() + lines_of(s@.skip(i as int)));
    out
}

/// `s` with every `c` replaced by `with`.
pub open spec fn replaced(s: Seq<char>, c: char, with: Seq<char>) -> Seq<char>
    decreases s.len(),
{
    if s.len() == 0 {
        Seq::empty()
    } else {
        replaced(s.drop_last(), c, with) + (if s.last() == c {
            with
        } else {
            seq![s.last()]
        })
    }
}

/// Replaces every `c` by `with`.
pub fn replace(s: &str, c: char, with: &str) -> (r: String)
    ensures
        r@ == replaced(s@, c, with@),
{
    let v = chars_of(s);
    let mut out = String::new();
    assert(v@.take(0) =~= Seq::empty());
    for i in 0..v.len()
        invariant
            v@ == s@,
            out@ == replaced(v@.take(i as int), c, with@),
    {
        assert(v@.take(i + 1).drop_last() =~= v@.take(i as int));
        if v[i] == c {
            push_str(&mut out, with);
        } else {
            out.push(v[i]);
            assert(out@ =~= replaced(v@.take(i as int), c, with@) + seq![v@[i as int]]);
        }
    }
    assert(v@.take(v@.len() as int) =~= v@);
    out
}

/// The parts with `sep` between neighbours.
pub open spec fn joined(parts: Seq<Seq<char>>, sep: Seq<char>) -> Seq<char>
    decreases parts.len(),
{
    if parts.len() == 0 {
        Seq::empty()
    } else if parts.len() == 1 {
        parts[0]
    } else {
        joined(parts.drop_last(), sep) + sep + parts.last()
    }
}

/// Joins strings with a separator.
pub fn join(parts: &Vec<String>, sep: &str) -> (r: String)
    ensures
        r@ == joined(parts.deep_view(), sep@),
{
    let mut out = String::new();
    let ghost all = parts.deep_view();
    assert(all.take(0) =~= Seq::empty());
    for i in 0..parts.len()
        invariant
            all == parts.deep_view(),
            out@ == joined(all.take(i as int), sep@),
    {
        assert(all.take(i + 1).drop_last() =~= all.take(i as int));
        assert(all.take(i + 1).last() == parts[i as int]@);
        if i > 0 {
            push_str(&mut out, sep);
        }
        push_str(&mut out, parts[i].as_str());
        assert(i == 0 ==> out@ =~= parts[i as int]@);
    }
    assert(all.take(all.len() as int) =~= all);
    out
}

// ---- Numbers ----------------------------------------------------------------

/// An ASCII decimal digit.
pub open spec fn is_digit(c: char) -> bool {
    '0' <= c <= '9'
}

/// The value of a digit.
pub open spec fn digit_value(c: char) -> nat {
    (c as u32 - '0' as u32) as nat
}

/// One digit or more, and nothing else.
pub open spec fn is_number(s: Seq<char>) -> bool {
    s.len() > 0 && forall|i: int| 0 <= i < s.len() ==> is_digit(#[trigger] s[i])
}

/// The number that decimal digits denote.
pub open spec fn number_value(s: Seq<char>) -> nat
    decreases s.len(),
{
    if s.len() == 0 {
        0
    } else {
        number_value(s.drop_last()) * 10 + digit_value(s.last())
    }
}

/// The natural number up to `max` that `v[from..]` denotes.
fn digits_from(v: &Vec<char>, from: usize, max: u64) -> (r: Option<u64>)
    requires
        from <= v.len(),
        max <= 0x8000_0000_0000_0000,
    ensures
        match r {
            Some(n) => is_number(v@.skip(from as int)) && number_value(v@.skip(from as int)) == n
                && n <= max,
            None => !is_number(v@.skip(from as int)) || number_value(v@.skip(from as int)) > max,
        },
{
    let ghost t = v@.skip(from as int);
    if from == v.len() {
        return None;
    }
    let mut n: u64 = 0;
    let mut over = false;
    assert(t.take(0) =~= Seq::empty());
    for i in from..v.len()
        invariant
            from < v.len(),
            t == v@.skip(from as int),
            max <= 0x8000_0000_0000_0000,
            forall|j: int| 0 <= j < i - from ==> is_digit(#[trigger] t[j]),
            !over ==> n == number_value(t.take(i - from)) && n <= max,
            over ==> number_value(t.take(i - from)) > max,
    {
        let c = v[i];
        assert(t[i - from] == c);
        if !('0' <= c && c <= '9') {
            return None;
        }
        let d: u64 = (c as u32 - '0' as u32) as u64;
        assert(t.take(i + 1 - from).drop_last() =~= t.take(i - from));
        assert(t.take(i + 1 - from).last() == c);
        assert(number_value(t.take(i + 1 - from)) == number_value(t.take(i - from)) * 10 + d);
        if !over {
            if n > (max - 0) / 10 {
                over = true;
                assert(number_value(t.take(i + 1 - from)) > max) by (nonlinear_arith)
                    requires
                        number_value(t.take(i + 1 - from)) == n * 10 + d,
                        n > max as int / 10,
                ;
            } else {
                n = n * 10 + d;
                if n > max {
                    over = true;
                }
            }
        }
    }
    assert(t.take(t.len() as int) =~= t);
    if over {
        None
    } else {
        Some(n)
    }
}

/// What a `u32` is written as: digits, with an optional plus sign.
pub open spec fn u32_value(s: Seq<char>) -> Option<u32> {
    let body = if s.len() > 0 && s[0] == '+' {
        s.skip(1)
    } else {
        s
    };
    if is_number(body) && number_value(body) <= u32::MAX {
        Some(number_value(body) as u32)
    } else {
        None
    }
}

/// Reads a `u32`.
pub fn parse_u32(s: &str) -> (r: Option<u32>)
    ensures
        r == u32_value(s@),
{
    let v = chars_of(s);
    assert(v@.skip(0) =~= v@);
    let from: usize = if v.len() > 0 && v[0] == '+' {
        1
    } else {
        0
    };
    match digits_from(&v, from, 0xffff_ffff) {
        Some(n) => Some(n as u32),
        None => None,
    }
}

/// What an `i64` is written as: digits, with an optional sign.
pub open spec fn i64_value(s: Seq<char>) -> Option<i64> {
    if s.len() > 0 && s[0] == '-' {
        if is_number(s.skip(1)) && number_value(s.skip(1)) <= 0x8000_0000_0000_0000 {
            Some((-(number_value(s.skip(1)) as int)) as i64)
        } else {
            None
        }
    } else {
        let body = if s.len() > 0 && s[0] == '+' {
            s.skip(1)
        } else {
            s
        };
        if is_number(body) && number_value(body) <= i64::MAX {
            Some(number_value(body) as i64)
        } else {
            None
        }
    }
}

/// Reads an `i64`.
pub fn parse_i64(s: &str) -> (r: Option<i64>)
    ensures
        r == i64_value(s@),
{
    let v = chars_of(s);
    assert(v@.skip(0) =~= v@);
    if v.len() > 0 && v[0] == '-' {
        match digits_from(&v, 1, 0x8000_0000_0000_0000) {
            Some(n) => {
                if n == 0x8000_0000_0000_0000 {
                    Some(i64::MIN)
                } else {
                    Some(-(n as i64))
                }
            },
            None => None,
        }
    } else {
        let from: usize = if v.len() > 0 && v[0] == '+' {
            1
        } else {
            0
        };
        match digits_from(&v, from, 0x7fff_ffff_ffff_ffff) {
            Some(n) => Some(n as i64),
            None => None,
        }
    }
}

/// The digit character of a value below sixteen.
pub open spec fn digit_char(d: nat) -> char
    recommends
        d < 16,
{
    if d < 10 {
        (('0' as u32 + d) as u32) as char
    } else {
        (('a' as u32 + (d - 10)) as u32) as char
    }
}

/// The decimal digits of a natural number, without leading zeros.
pub open spec fn decimal_of(n: nat) -> Seq<char>
    decreases n,
{
    if n < 10 {
        seq![digit_char(n)]
    } else {
        decimal_of(n / 10).push(digit_char(n % 10))
    }
}

/// The decimal digits of an integer, with a minus sign below zero.
pub open spec fn decimal_int(n: int) -> Seq<char> {
    if n < 0 {
        seq!['-'] + decimal_of((-n) as nat)
    } else {
        decimal_of(n as nat)
    }
}

/// Writes one digit.
pub fn digit_of(d: u64) -> (r: char)
    requires
        d < 16,
    ensures
        r == digit_char(d as nat),
{
    if d < 10 {
        (48u8 + d as u8) as char
    } else {
        (97u8 + (d as u8 - 10)) as char
    }
}

/// Writes a natural number in decimal.
pub fn decimal(n: u64) -> (r: String)
    ensures
        r@ == decimal_of(n as nat),
    decreases n,
{
    let mut out = if n < 10 {
        String::new()
    } else {
        decimal(n / 10)
    };
    let ghost before = out@;
    out.push(digit_of(n % 10));
    assert(n < 10 ==> out@ =~= seq![digit_char(n as nat)]);
    out
}

/// Writes a signed number in decimal.
pub fn decimal_i64(n: i64) -> (r: String)
    ensures
        r@ == decimal_int(n as int),
{
    if n < 0 {
        let magnitude: u64 = if n == i64::MIN {
            0x8000_0000_0000_0000
        } else {
            (-n) as u64
        };
        let mut out = String::new();
        out.push('-');
        push_str(&mut out, decimal(magnitude).as_str());
        assert(out@ =~= seq!['-'] + decimal_of(magnitude as nat));
        out
    } else {
        decimal(n as u64)
    }
}

/// The digits of a number denote it.
pub proof fn decimal_reads_back(n: nat)
    ensures
        is_number(decimal_of(n)),
        number_value(decimal_of(n)) == n,
    decreases n,
{
    let s = decimal_of(n);
    if n < 10 {
        assert(s.drop_last() =~= Seq::empty());
        assert(is_digit(digit_char(n)) && digit_value(digit_char(n)) == n);
        reveal_with_fuel(number_value, 2);
    } else {
        decimal_reads_back(n / 10);
        let front = decimal_of(n / 10);
        let last = digit_char(n % 10);
        assert(is_digit(last) && digit_value(last) == n % 10);
        assert(s.drop_last() =~= front);
        assert forall|i: int| 0 <= i < s.len() implies is_digit(#[trigger] s[i]) by {
            if i < front.len() {
                assert(s[i] == front[i]);
            }
        }
    }
}

/// An `i64` that was written out is read back.
pub proof fn i64_reads_back(n: i64)
    ensures
        i64_value(decimal_int(n as int)) == Some(n),
{
    let s = decimal_int(n as int);
    if n < 0 {
        decimal_reads_back((-(n as int)) as nat);
        assert(s.skip(1) =~= decimal_of((-(n as int)) as nat));
    } else {
        decimal_reads_back(n as nat);
        assert(is_digit(s[0]));
    }
}

} // verus!
