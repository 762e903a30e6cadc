//! What the functions on text mean, said of how a text is put together.
use crate::text::{
    chomped, decimal_of, decimal_reads_back, fields_of, first_at, first_from_least, has_prefix, has_suffix,
    is_digit, is_number, is_space, joined, last_at, last_from_greatest, lex_lt, lines_of, number_value,
    occurs_at,
    parted, replaced, rparted, trimmed, trimmed_end, trimmed_start, u32_value, until, until_bound,
    word_len, words_of,
};
use vstd::prelude::*;

verus! {

/// Every character is white space.
pub open spec fn blank(s: Seq<char>) -> bool {
    forall|i: int| 0 <= i < s.len() ==> is_space(#[trigger] s[i])
}

/// No character is white space.
pub open spec fn solid(s: Seq<char>) -> bool {
    forall|i: int| 0 <= i < s.len() ==> !is_space(#[trigger] s[i])
}

/// Spaces, tabs and line breaks are white space; letters, digits and ASCII marks are not.
pub proof fn plain_spaces(c: char)
    ensures
        is_space(' ') && is_space('\t') && is_space('\n') && is_space('\r'),
        ('!' <= c && c <= '~') ==> !is_space(c),
{
}

// ---- Trimming ---------------------------------------------------------------

/// Trimming at the end takes white space off the end, and all of it.
pub proof fn trim_end_takes_spaces(s: Seq<char>) -> (tail: Seq<char>)
    ensures
        s == trimmed_end(s) + tail,
        blank(tail),
        trimmed_end(s).len() > 0 ==> !is_space(trimmed_end(s).last()),
    decreases s.len(),
{
    if s.len() > 0 && is_space(s.last()) {
        let tail = trim_end_takes_spaces(s.drop_last());
        let all = tail.push(s.last());
        assert(s.drop_last() == trimmed_end(s) + tail);
        assert(s =~= s.drop_last().push(s.last()));
        assert(s =~= trimmed_end(s) + all);
        assert forall|i: int| 0 <= i < all.len() implies is_space(#[trigger] all[i]) by {
            if i < tail.len() {
                assert(is_space(tail[i]));
            }
        }
        all
    } else {
        assert(s =~= trimmed_end(s) + Seq::<char>::empty());
        Seq::empty()
    }
}

/// Trimming takes white space off both ends, and all of it.
pub proof fn trim_takes_spaces(s: Seq<char>) -> (ends: (Seq<char>, Seq<char>))
    ensures
        s == ends.0 + trimmed(s) + ends.1,
        blank(ends.0) && blank(ends.1),
        trimmed(s).len() > 0 ==> !is_space(trimmed(s)[0]) && !is_space(trimmed(s).last()),
{
    let head = trim_start_takes_spaces(s);
    let rest = trimmed_start(s);
    let tail = trim_end_takes_spaces(rest);
    assert(s =~= head + trimmed(s) + tail);
    if trimmed(s).len() > 0 {
        assert(rest[0] == trimmed(s)[0]);
    }
    (head, tail)
}

proof fn trim_start_takes_spaces(s: Seq<char>) -> (head: Seq<char>)
    ensures
        s == head + trimmed_start(s),
        blank(head),
        trimmed_start(s).len() > 0 ==> !is_space(trimmed_start(s)[0]),
    decreases s.len(),
{
    if s.len() > 0 && is_space(s[0]) {
        let head = trim_start_takes_spaces(s.drop_first());
        let all = seq![s[0]] + head;
        assert(s.drop_first() == head + trimmed_start(s));
        assert(s =~= seq![s[0]] + s.drop_first());
        assert(s =~= all + trimmed_start(s));
        assert forall|i: int| 0 <= i < all.len() implies is_space(#[trigger] all[i]) by {
            if i > 0 {
                assert(is_space(head[i - 1]));
            }
        }
        all
    } else {
        assert(s =~= Seq::<char>::empty() + trimmed_start(s));
        Seq::empty()
    }
}

/// Spaces around a text that has none at its ends come off, whatever the text holds.
pub proof fn trim_undoes_padding(head: Seq<char>, s: Seq<char>, tail: Seq<char>)
    requires
        blank(head) && blank(tail),
        s.len() > 0 ==> !is_space(s[0]) && !is_space(s.last()),
    ensures
        trimmed(head + s + tail) == s,
        trimmed_end(s + tail) == s,
{
    padding_ends(s, tail);
    padding_starts(head, s + tail);
    assert(head + s + tail =~= head + (s + tail));
    if s.len() > 0 {
        assert((s + tail)[0] == s[0]);
    } else {
        blank_trims(tail);
        assert(s + tail =~= tail);
        assert(s =~= Seq::<char>::empty());
    }
}

/// White space after a text that does not end in any comes off.
pub proof fn padding_ends(s: Seq<char>, tail: Seq<char>)
    requires
        blank(tail),
        s.len() > 0 ==> !is_space(s.last()),
    ensures
        trimmed_end(s + tail) == s,
    decreases tail.len(),
{
    if tail.len() > 0 {
        let t = tail.drop_last();
        assert(is_space(tail[tail.len() - 1]));
        assert((s + tail).drop_last() =~= s + t);
        assert((s + tail).last() == tail.last());
        assert forall|i: int| 0 <= i < t.len() implies is_space(#[trigger] t[i]) by {
            assert(is_space(tail[i]));
        }
        padding_ends(s, t);
    } else {
        assert(s + tail =~= s);
    }
}

proof fn padding_starts(head: Seq<char>, s: Seq<char>)
    requires
        blank(head),
    ensures
        trimmed_start(head + s) == trimmed_start(s),
    decreases head.len(),
{
    if head.len() > 0 {
        assert(is_space(head[0]));
        assert((head + s).drop_first() =~= head.drop_first() + s);
        assert forall|i: int| 0 <= i < head.drop_first().len() implies is_space(
            #[trigger] head.drop_first()[i],
        ) by {
            assert(is_space(head[i + 1]));
        }
        padding_starts(head.drop_first(), s);
    } else {
        assert(head + s =~= s);
    }
}

proof fn blank_trims(s: Seq<char>)
    requires
        blank(s),
    ensures
        trimmed_start(s).len() == 0,
        trimmed_end(trimmed_start(s)).len() == 0,
    decreases s.len(),
{
    if s.len() > 0 {
        assert(is_space(s[0]));
        assert forall|i: int| 0 <= i < s.drop_first().len() implies is_space(#[trigger] s.drop_first()[i]) by {
            assert(is_space(s[i + 1]));
        }
        blank_trims(s.drop_first());
    }
}

// ---- Words ------------------------------------------------------------------

/// A text without white space is one word; white space parts words and is in none.
pub proof fn words_are_parted_by_spaces(a: Seq<char>, c: char, b: Seq<char>, w: Seq<char>)
    requires
        is_space(c),
        solid(w) && w.len() > 0,
    ensures
        words_of(Seq::<char>::empty()) == Seq::<Seq<char>>::empty(),
        words_of(w) == seq![w],
        words_of(a.push(c) + b) == words_of(a) + words_of(b),
    decreases a.len(),
{
    solid_is_one_word(w);
    let s = a.push(c) + b;
    if a.len() == 0 {
        assert(s[0] == c);
        assert(s.drop_first() =~= b);
        assert(words_of(a) + words_of(b) =~= words_of(b));
    } else if is_space(a[0]) {
        words_are_parted_by_spaces(a.drop_first(), c, b, w);
        assert(s[0] == a[0]);
        assert(s.drop_first() =~= a.drop_first().push(c) + b);
    } else {
        let n = word_len(a) as int;
        crate::text::word_len_bound(a);
        word_len_of_joined(a, c, b);
        word_len_positive(a);
        words_are_parted_by_spaces(a.skip(n), c, b, w);
        assert(s[0] == a[0]);
        assert(s.take(n) =~= a.take(n));
        assert(s.skip(n) =~= a.skip(n).push(c) + b);
        assert(words_of(s) =~= words_of(a) + words_of(b));
    }
}

proof fn word_len_positive(a: Seq<char>)
    ensures
        a.len() > 0 && !is_space(a[0]) ==> word_len(a) > 0,
{
}

proof fn word_len_of_joined(a: Seq<char>, c: char, b: Seq<char>)
    requires
        is_space(c),
    ensures
        word_len(a.push(c) + b) == word_len(a),
    decreases a.len(),
{
    let s = a.push(c) + b;
    if a.len() == 0 {
        assert(s[0] == c);
    } else {
        assert(s[0] == a[0]);
        if !is_space(a[0]) {
            assert(s.drop_first() =~= a.drop_first().push(c) + b);
            word_len_of_joined(a.drop_first(), c, b);
        }
    }
}

proof fn solid_is_one_word(w: Seq<char>)
    requires
        solid(w) && w.len() > 0,
    ensures
        words_of(w) == seq![w],
{
    solid_word_len(w);
    assert(!is_space(w[0]));
    assert(w.take(w.len() as int) =~= w);
    assert(w.skip(w.len() as int) =~= Seq::<char>::empty());
    assert(words_of(Seq::<char>::empty()) =~= Seq::<Seq<char>>::empty());
    assert(words_of(w) =~= seq![w]);
}

proof fn solid_word_len(w: Seq<char>)
    requires
        solid(w),
    ensures
        word_len(w) == w.len(),
    decreases w.len(),
{
    if w.len() > 0 {
        assert(!is_space(w[0]));
        assert forall|i: int| 0 <= i < w.drop_first().len() implies !is_space(#[trigger] w.drop_first()[i]) by {
            assert(!is_space(w[i + 1]));
        }
        solid_word_len(w.drop_first());
    }
}

// ---- Lines and fields -------------------------------------------------------

/// A line ends at a line break, and a carriage return before it belongs to the break. The
/// last line may end without one.
pub proof fn lines_end_at_breaks(line: Seq<char>, rest: Seq<char>)
    requires
        !line.contains('\n'),
    ensures
        lines_of(Seq::<char>::empty()) == Seq::<Seq<char>>::empty(),
        line.len() > 0 ==> lines_of(line) == seq![line],
        line.len() == 0 || line.last() != '\r' ==> lines_of(line.push('\n') + rest) == seq![line] + lines_of(
            rest,
        ),
        lines_of(line.push('\r').push('\n') + rest) == seq![line] + lines_of(rest),
{
    break_ends_line(line, rest);
    let r = line.push('\r');
    assert(!r.contains('\n')) by {
        if r.contains('\n') {
            let k = r.index_of('\n');
            assert(line[k] == '\n');
        }
    }
    break_ends_line(r, rest);
    assert(r.drop_last() =~= line);
    until_whole(line, '\n');
}

proof fn until_whole(s: Seq<char>, c: char)
    requires
        !s.contains(c),
    ensures
        until(s, c) == s.len(),
{
    until_bound(s, c);
}

proof fn break_ends_line(line: Seq<char>, rest: Seq<char>)
    requires
        !line.contains('\n'),
    ensures
        lines_of(line.push('\n') + rest) == seq![chomped(line)] + lines_of(rest),
{
    let s = line.push('\n') + rest;
    until_bound(s, '\n');
    let n = until(s, '\n') as int;
    if n < line.len() {
        assert(s[n] == line[n]);
        assert(line.contains(line[n]));
    }
    assert(s[line.len() as int] == '\n');
    assert(n == line.len());
    assert(s.take(n) =~= line);
    assert(s.skip(n + 1) =~= rest);
}

/// Fields are what stands between the separators, the empty ones too.
pub proof fn fields_stand_between(a: Seq<char>, b: Seq<char>, c: char)
    requires
        !a.contains(c),
    ensures
        fields_of(a, c) == seq![a],
        fields_of(a.push(c) + b, c) == seq![a] + fields_of(b, c),
{
    until_whole(a, c);
    let s = a.push(c) + b;
    until_bound(s, c);
    let n = until(s, c) as int;
    if n < a.len() {
        assert(s[n] == a[n]);
        assert(a.contains(a[n]));
    }
    assert(s[a.len() as int] == c);
    assert(s.take(n) =~= a);
    assert(s.skip(n + 1) =~= b);
}

// ---- Parts ------------------------------------------------------------------

/// A text is parted at the first place where the separator stands, and only where it
/// stands anywhere.
pub proof fn parted_at_first(s: Seq<char>, sep: Seq<char>)
    ensures
        match parted(s, sep) {
            Some((a, b)) => s == a + sep + b && forall|j: int|
                0 <= j < a.len() ==> !occurs_at(s, sep, j),
            None => forall|j: int| !occurs_at(s, sep, j),
        },
        match rparted(s, sep) {
            Some((a, b)) => s == a + sep + b && forall|j: int|
                j > a.len() ==> !occurs_at(s, sep, j),
            None => forall|j: int| !occurs_at(s, sep, j),
        },
{
    first_from_least(s, sep, 0);
    last_from_greatest(s, sep, s.len() - sep.len());
    if let Some(i) = first_at(s, sep) {
        assert(s =~= s.take(i) + sep + s.skip(i + sep.len())) by {
            assert(s.subrange(i, i + sep.len()) == sep);
            assert forall|k: int| 0 <= k < sep.len() implies s[i + k] == sep[k] by {
                assert(s.subrange(i, i + sep.len())[k] == s[i + k]);
            }
        }
    }
    if let Some(i) = last_at(s, sep) {
        assert(s =~= s.take(i) + sep + s.skip(i + sep.len())) by {
            assert(s.subrange(i, i + sep.len()) == sep);
            assert forall|k: int| 0 <= k < sep.len() implies s[i + k] == sep[k] by {
                assert(s.subrange(i, i + sep.len())[k] == s[i + k]);
            }
        }
    }
}

/// A pattern stands at a place where the text is what comes before, the pattern, and what
/// comes after.
pub proof fn standing_is_splitting(a: Seq<char>, pat: Seq<char>, b: Seq<char>)
    ensures
        occurs_at(a + pat + b, pat, a.len() as int),
{
    assert((a + pat + b).subrange(a.len() as int, (a.len() + pat.len()) as int) =~= pat);
}

/// What a text starts with is followed by the rest; what it ends with follows the rest.
pub proof fn starts_and_ends(s: Seq<char>, pat: Seq<char>)
    ensures
        has_prefix(s, pat) <==> exists|rest: Seq<char>| s == #[trigger] (pat + rest),
        has_suffix(s, pat) <==> exists|rest: Seq<char>| s == #[trigger] (rest + pat),
{
    if has_prefix(s, pat) {
        assert(s =~= pat + s.skip(pat.len() as int));
    }
    if exists|rest: Seq<char>| s == #[trigger] (pat + rest) {
        assert(s.take(pat.len() as int) =~= pat);
    }
    if has_suffix(s, pat) {
        assert(s =~= s.take(s.len() - pat.len()) + pat);
    }
    if exists|rest: Seq<char>| s == #[trigger] (rest + pat) {
        assert(s.skip(s.len() - pat.len()) =~= pat);
    }
}

/// Replacing goes character by character.
pub proof fn replaced_by_character(a: Seq<char>, x: char, c: char, with: Seq<char>)
    ensures
        replaced(Seq::empty(), c, with) == Seq::<char>::empty(),
        x != c ==> replaced(a.push(x), c, with) == replaced(a, c, with).push(x),
        replaced(a.push(c), c, with) == replaced(a, c, with) + with,
{
    assert(a.push(x).drop_last() =~= a);
    assert(a.push(c).drop_last() =~= a);
    assert(x != c ==> replaced(a.push(x), c, with) =~= replaced(a, c, with).push(x));
}

/// Parts are joined with the separator between neighbours and nowhere else.
pub proof fn joined_between(parts: Seq<Seq<char>>, last: Seq<char>, sep: Seq<char>)
    ensures
        joined(Seq::empty(), sep) == Seq::<char>::empty(),
        joined(seq![last], sep) == last,
        parts.len() > 0 ==> joined(parts.push(last), sep) == joined(parts, sep) + sep + last,
{
    assert(parts.push(last).drop_last() =~= parts);
}

// ---- Order ------------------------------------------------------------------

/// One text comes before another where it is a proper beginning of it, or where the first
/// character in which they differ is the lesser.
pub proof fn order_by_first_difference(common: Seq<char>, a: Seq<char>, b: Seq<char>)
    requires
        a.len() > 0 && b.len() > 0 ==> a[0] != b[0],
    ensures
        lex_lt(common + a, common + b) <==> b.len() > 0 && (a.len() == 0 || a[0] < b[0]),
    decreases common.len(),
{
    if common.len() > 0 {
        order_by_first_difference(common.drop_first(), a, b);
        assert((common + a).drop_first() =~= common.drop_first() + a);
        assert((common + b).drop_first() =~= common.drop_first() + b);
        assert((common + a)[0] == (common + b)[0]);
    } else {
        assert(common + a =~= a);
        assert(common + b =~= b);
    }
}

// ---- Numbers ----------------------------------------------------------------

/// A number is written in digits alone, and is read back as itself.
pub proof fn numbers_read_back(n: u32)
    ensures
        is_number(decimal_of(n as nat)),
        u32_value(decimal_of(n as nat)) == Some(n),
        solid(decimal_of(n as nat)),
        trimmed(decimal_of(n as nat)) == decimal_of(n as nat),
        forall|c: char| !('0' <= c && c <= '9') ==> !#[trigger] decimal_of(n as nat).contains(c),
{
    let s = decimal_of(n as nat);
    decimal_reads_back(n as nat);
    assert forall|i: int| 0 <= i < s.len() implies !is_space(#[trigger] s[i]) by {
        assert(is_digit(s[i]));
    }
    assert(is_digit(s[0]));
    assert(is_digit(s[s.len() - 1]));
    trim_undoes_padding(Seq::empty(), s, Seq::empty());
    assert(Seq::<char>::empty() + s + Seq::<char>::empty() =~= s);
    assert forall|c: char| !('0' <= c && c <= '9') implies !#[trigger] s.contains(c) by {
        if s.contains(c) {
            assert(is_digit(s[s.index_of(c)]));
        }
    }
}

/// What reads as a number is digits, after a plus sign at most.
pub proof fn only_digits_are_numbers(s: Seq<char>, i: int)
    requires
        u32_value(s) is Some,
        0 <= i < s.len(),
    ensures
        ('0' <= s[i] && s[i] <= '9') || (i == 0 && s[i] == '+'),
{
    if s[0] == '+' {
        if i > 0 {
            assert(is_digit(s.skip(1)[i - 1]));
        }
    } else {
        assert(is_digit(s[i]));
    }
}

/// A text without the mark, then the mark, then anything, is parted there; a text is parted
/// from the right at a mark that nothing after it holds.
pub proof fn parted_at_mark(a: Seq<char>, c: char, b: Seq<char>)
    ensures
        !a.contains(c) ==> parted(a + seq![c] + b, seq![c]) == Some((a, b)),
        !b.contains(c) ==> rparted(a + seq![c] + b, seq![c]) == Some((a, b)),
        !a.contains(c) ==> parted(a, seq![c]) is None && rparted(a, seq![c]) is None,
{
    let s = a + seq![c] + b;
    let sep = seq![c];
    parted_at_first(s, sep);
    standing_is_splitting(a, sep, b);
    assert(s[a.len() as int] == c);
    if !a.contains(c) {
        let (x, y) = parted(s, sep)->0;
        if x.len() < a.len() {
            assert(s[x.len() as int] == (x + sep + y)[x.len() as int]);
            assert(a[x.len() as int] == c);
        }
        assert(x.len() == a.len());
        assert(x =~= a && y =~= b) by {
            assert(s.take(a.len() as int) =~= a);
            assert((x + sep + y).take(a.len() as int) =~= x);
            assert(s.skip(a.len() as int + 1) =~= b);
            assert((x + sep + y).skip(a.len() as int + 1) =~= y);
        }
        parted_at_first(a, sep);
        if parted(a, sep) is Some {
            let (p, q) = parted(a, sep)->0;
            assert((p + sep + q)[p.len() as int] == c);
            assert(a.contains(a[p.len() as int]));
        }
        if rparted(a, sep) is Some {
            let (p, q) = rparted(a, sep)->0;
            assert((p + sep + q)[p.len() as int] == c);
            assert(a.contains(a[p.len() as int]));
        }
    }
    if !b.contains(c) {
        let (x, y) = rparted(s, sep)->0;
        if x.len() > a.len() {
            assert(s[x.len() as int] == (x + sep + y)[x.len() as int]);
            assert(b[x.len() - a.len() - 1] == c);
        }
        if x.len() < a.len() {
            assert(occurs_at(s, sep, a.len() as int));
        }
        assert(x.len() == a.len());
        assert(x =~= a && y =~= b) by {
            assert(s.take(a.len() as int) =~= a);
            assert((x + sep + y).take(a.len() as int) =~= x);
            assert(s.skip(a.len() as int + 1) =~= b);
            assert((x + sep + y).skip(a.len() as int + 1) =~= y);
        }
    }
}

/// A text that does not hold the first mark of a separator is parted where the separator
/// follows it.
pub proof fn parted_after(a: Seq<char>, sep: Seq<char>, b: Seq<char>)
    requires
        sep.len() > 0,
        !a.contains(sep[0]),
    ensures
        parted(a + sep + b, sep) == Some((a, b)),
        parted(a, sep) is None,
{
    let s = a + sep + b;
    let n = a.len() as int;
    first_after(s, a, sep, b);
    assert(s.take(n) =~= a);
    assert(s.skip(n + sep.len()) =~= b);
    first_from_least(a, sep, 0);
    if let Some(k) = first_at(a, sep) {
        stands_at(a, sep, k, 0);
        assert(a.contains(a[k]));
    }
}

proof fn stands_at(s: Seq<char>, pat: Seq<char>, k: int, m: int)
    requires
        occurs_at(s, pat, k),
        0 <= m < pat.len(),
    ensures
        s[k + m] == pat[m],
{
    assert(s.subrange(k, k + pat.len())[m] == s[k + m]);
}

proof fn first_after(s: Seq<char>, a: Seq<char>, sep: Seq<char>, b: Seq<char>)
    requires
        s == a + sep + b,
        sep.len() > 0,
        !a.contains(sep[0]),
    ensures
        first_at(s, sep) == Some(a.len() as int),
{
    standing_is_splitting(a, sep, b);
    assert forall|j: int| 0 <= j < a.len() implies !occurs_at(s, sep, j) by {
        if occurs_at(s, sep, j) {
            stands_at(s, sep, j, 0);
            assert(a[j] == s[j]);
            assert(a.contains(a[j]));
        }
    }
    first_stands(s, sep, a.len() as int);
}

proof fn first_stands(s: Seq<char>, pat: Seq<char>, k: int)
    requires
        occurs_at(s, pat, k),
        forall|j: int| 0 <= j < k ==> !occurs_at(s, pat, j),
    ensures
        first_at(s, pat) == Some(k),
{
    first_from_least(s, pat, 0);
}

/// A text that does not hold one of the marks of a separator, which the separator holds
/// once, is parted from the right where the separator precedes it.
pub proof fn rparted_before(a: Seq<char>, sep: Seq<char>, b: Seq<char>, m: int)
    requires
        0 <= m < sep.len(),
        forall|i: int| 0 <= i < sep.len() && i != m ==> #[trigger] sep[i] != sep[m],
        !b.contains(sep[m]),
    ensures
        rparted(a + sep + b, sep) == Some((a, b)),
        rparted(b, sep) is None,
{
    let s = a + sep + b;
    let n = a.len() as int;
    last_before(s, a, sep, b, m);
    assert(s.take(n) =~= a);
    assert(s.skip(n + sep.len()) =~= b);
    last_from_greatest(b, sep, b.len() - sep.len());
    if let Some(k) = last_at(b, sep) {
        stands_at(b, sep, k, m);
        assert(b.contains(b[k + m]));
    }
}

proof fn last_before(s: Seq<char>, a: Seq<char>, sep: Seq<char>, b: Seq<char>, m: int)
    requires
        s == a + sep + b,
        0 <= m < sep.len(),
        forall|i: int| 0 <= i < sep.len() && i != m ==> #[trigger] sep[i] != sep[m],
        !b.contains(sep[m]),
    ensures
        last_at(s, sep) == Some(a.len() as int),
{
    standing_is_splitting(a, sep, b);
    last_from_greatest(s, sep, s.len() - sep.len());
    let n = a.len() as int;
    if last_at(s, sep) is Some {
        let k = last_at(s, sep)->0;
        if k > n {
            stands_at(s, sep, k, m);
            let i = k + m - n;
            if i < sep.len() {
                assert(s[k + m] == sep[i]);
            } else {
                assert(s[k + m] == b[i - sep.len()]);
                assert(b.contains(b[i - sep.len()]));
            }
        }
    }
}

/// White space is what Unicode says it is.
pub proof fn unicode_spaces(c: char)
    ensures
        is_space(c) <==> ('\u{9}' <= c && c <= '\u{d}') || c == ' ' || c == '\u{85}' || c == '\u{a0}' || c
            == '\u{1680}' || ('\u{2000}' <= c && c <= '\u{200a}') || c == '\u{2028}' || c == '\u{2029}' || c
            == '\u{202f}' || c == '\u{205f}' || c == '\u{3000}',
{
}

/// Digits count by tens; a plus sign in front changes nothing; what is too large for the
/// machine reads as no number.
pub proof fn digits_count_by_tens(s: Seq<char>, c: char)
    ensures
        number_value(Seq::empty()) == 0,
        number_value(s.push(c)) == number_value(s) * 10 + (c as u32 - '0' as u32) as nat,
        is_number(s) && number_value(s) <= u32::MAX ==> u32_value(s) == Some(number_value(s) as u32) && u32_value(
            seq!['+'] + s,
        ) == u32_value(s),
        is_number(s) && number_value(s) > u32::MAX ==> u32_value(s) is None,
        u32_value(Seq::empty()) is None,
{
    assert(s.push(c).drop_last() =~= s);
    let signed = seq!['+'] + s;
    assert(signed.skip(1) =~= s);
    assert(signed[0] == '+');
    if is_number(s) {
        assert(is_digit(s[0]));
    }
}

} // verus!
