//! Ids: ULIDs, whose text sorts in the order of their creation times.
use crate::text::{self, lex_lt};
use vstd::prelude::*;

verus! {

/// The thirty-two symbols of the base-32 text form, in ascending order.
pub open spec fn symbol(d: nat) -> char {
    seq![
        '0', '1', '2', '3', '4', '5', '6', '7', '8', '9', 'A', 'B', 'C', 'D', 'E', 'F', 'G', 'H',
        'J', 'K', 'M', 'N', 'P', 'Q', 'R', 'S', 'T', 'V', 'W', 'X', 'Y', 'Z',
    ][d as int]
}

/// The `n` low base-32 digits of `v`, most significant first.
pub open spec fn base32(v: nat, n: nat) -> Seq<char>
    decreases n,
{
    if n == 0 {
        Seq::empty()
    } else {
        base32(v / 32, (n - 1) as nat).push(symbol(v % 32))
    }
}

/// The text form of an id: twenty-six base-32 digits.
pub open spec fn id_text(bits: u128) -> Seq<char> {
    base32(bits as nat, 26)
}

/// The creation time of an id, epoch milliseconds: its bits above the low eighty.
pub open spec fn id_millis(bits: u128) -> u64 {
    (bits as nat / 0x1_0000_0000_0000_0000_0000) as u64
}

/// `id` and `ms` are the text and the creation time of one freshly made id.
pub open spec fn minted(id: Seq<char>, ms: i64) -> bool {
    exists|bits: u128| id == #[trigger] id_text(bits) && ms == id_millis(bits)
}

/// `ms` is the creation time of some id.
pub open spec fn is_id_time(ms: i64) -> bool {
    exists|bits: u128| ms == #[trigger] id_millis(bits)
}

/// A digit of the text form, in either case.
pub open spec fn is_symbol(c: char) -> bool {
    ('0' <= c <= '9') || (('A' <= c <= 'Z') && c != 'I' && c != 'L' && c != 'O' && c != 'U') || ((
    'a' <= c <= 'z') && c != 'i' && c != 'l' && c != 'o' && c != 'u')
}

/// The text that reads as an id: twenty-six digits, in either case.
pub open spec fn is_id_text(s: Seq<char>) -> bool {
    s.len() == 26 && forall|i: int| 0 <= i < s.len() ==> is_symbol(#[trigger] s[i])
}

/// `ulid::Ulid::new`: a new id, made of the time and of chance, so nothing is
/// claimed of it.
#[verifier::external_body]
fn fresh_bits() -> (r: u128) {
    ulid::Ulid::new().0
}

/// `ulid::Ulid::to_string`: the base-32 text of an id.
#[verifier::external_body]
fn text_of_bits(bits: u128) -> (r: String)
    ensures
        r@ == id_text(bits),
{
    ulid::Ulid(bits).to_string()
}

/// `ulid::Ulid::timestamp_ms`: the bits of an id above the low eighty.
#[verifier::external_body]
fn millis_of_bits(bits: u128) -> (r: u64)
    ensures
        r == id_millis(bits),
{
    ulid::Ulid(bits).timestamp_ms()
}

/// `ulid::Ulid::from_string`: it accepts twenty-six base-32 digits in either case,
/// and nothing else. Which id they denote is not stated.
#[verifier::external_body]
fn reads_as_id(s: &str) -> (r: bool)
    ensures
        r == is_id_text(s@),
{
    ulid::Ulid::from_string(s).is_ok()
}

/// Whether a text reads as an id.
pub fn is_id(s: &str) -> (r: bool)
    ensures
        r == is_id_text(s@),
{
    reads_as_id(s)
}

/// The text and the creation time of the id with the given bits.
pub fn id_parts(bits: u128) -> (r: (String, i64))
    ensures
        r.0@ == id_text(bits),
        r.1 == id_millis(bits),
        r.1 >= 0,
{
    let ms: u64 = millis_of_bits(bits);
    assert(bits as nat / 0x1_0000_0000_0000_0000_0000 < 0x1_0000_0000_0000);
    (text_of_bits(bits), ms as i64)
}

/// A new id with its creation time.
pub fn mint() -> (r: (String, i64))
    ensures
        minted(r.0@, r.1),
{
    let bits: u128 = fresh_bits();
    let r = id_parts(bits);
    assert(r.0@ == id_text(bits));
    r
}

/// The present time, epoch milliseconds: the creation time of an id made for it. An id
/// records forty-eight bits of it. That it is the present is the clock's, and not stated.
pub fn now_ms() -> (r: i64)
    ensures
        is_id_time(r),
        0 <= r < 0x1_0000_0000_0000,
{
    let bits: u128 = fresh_bits();
    let r: i64 = id_parts(bits).1;
    assert(r == id_millis(bits));
    assert(bits as nat / 0x1_0000_0000_0000_0000_0000 < 0x1_0000_0000_0000);
    r
}

// ---- Order ------------------------------------------------------------------

/// A base-32 text has as many symbols as digits were asked for.
pub proof fn base32_len(v: nat, n: nat)
    ensures
        base32(v, n).len() == n,
    decreases n,
{
    if n > 0 {
        base32_len(v / 32, (n - 1) as nat);
    }
}

/// 32 to the power `n`.
pub open spec fn pow32(n: nat) -> nat
    decreases n,
{
    if n == 0 {
        1
    } else {
        32 * pow32((n - 1) as nat)
    }
}

/// One symbol more keeps the order of two texts of equal length.
proof fn lex_lt_push(a: Seq<char>, b: Seq<char>, x: char, y: char)
    requires
        a.len() == b.len(),
        lex_lt(a, b),
    ensures
        lex_lt(a.push(x), b.push(y)),
    decreases a.len(),
{
    assert(a.push(x)[0] == a[0]);
    assert(b.push(y)[0] == b[0]);
    if a[0] == b[0] {
        lex_lt_push(a.drop_first(), b.drop_first(), x, y);
        assert(a.push(x).drop_first() =~= a.drop_first().push(x));
        assert(b.push(y).drop_first() =~= b.drop_first().push(y));
    }
}

/// Base-32 texts of equal length sort as the numbers do.
pub proof fn base32_ordered(a: nat, b: nat, n: nat)
    requires
        a < b < pow32(n),
    ensures
        lex_lt(base32(a, n), base32(b, n)),
    decreases n,
{
    if n > 0 {
        let m = (n - 1) as nat;
        base32_len(a / 32, m);
        base32_len(b / 32, m);
        assert(b / 32 < pow32(m));
        if a / 32 < b / 32 {
            base32_ordered(a / 32, b / 32, m);
            lex_lt_push(base32(a / 32, m), base32(b / 32, m), symbol(a % 32), symbol(b % 32));
        } else {
            assert(a / 32 == b / 32 && a % 32 < b % 32);
            assert(symbol(a % 32) < symbol(b % 32));
            text::lex_lt_at(base32(a, n), base32(b, n), m as int);
        }
    }
}

/// Ids sort as their texts do.
pub proof fn id_text_ordered(a: u128, b: u128)
    requires
        a < b,
    ensures
        lex_lt(id_text(a), id_text(b)),
{
    reveal_with_fuel(pow32, 27);
    assert(b < pow32(26));
    base32_ordered(a as nat, b as nat, 26);
}

/// An id made in a later millisecond sorts after one made earlier.
pub proof fn later_ids_sort_later(a: u128, b: u128)
    requires
        id_millis(a) < id_millis(b),
    ensures
        lex_lt(id_text(a), id_text(b)),
{
    assert(b as nat / 0x1_0000_0000_0000_0000_0000 < 0x1_0000_0000_0000);
    assert(a as nat / 0x1_0000_0000_0000_0000_0000 < 0x1_0000_0000_0000);
    assert(a < b);
    id_text_ordered(a, b);
}

/// Two ids with the same text are the same id.
pub proof fn id_text_injective(a: u128, b: u128)
    requires
        id_text(a) == id_text(b),
    ensures
        a == b,
{
    text::lex_lt_irreflexive(id_text(a));
    if a < b {
        id_text_ordered(a, b);
    } else if b < a {
        id_text_ordered(b, a);
    }
}

/// The text of every id reads as an id.
pub proof fn id_text_reads(bits: u128)
    ensures
        is_id_text(id_text(bits)),
{
    base32_symbols(bits as nat, 26);
    base32_len(bits as nat, 26);
}

/// Every character of a base-32 text is one of the symbols.
proof fn base32_symbols(v: nat, n: nat)
    ensures
        forall|i: int| 0 <= i < base32(v, n).len() ==> is_symbol(#[trigger] base32(v, n)[i]),
    decreases n,
{
    if n > 0 {
        base32_symbols(v / 32, (n - 1) as nat);
        let head = base32(v / 32, (n - 1) as nat);
        assert(is_symbol(symbol(v % 32)));
        assert forall|i: int| 0 <= i < base32(v, n).len() implies is_symbol(
            #[trigger] base32(v, n)[i],
        ) by {
            if i < head.len() {
                assert(base32(v, n)[i] == head[i]);
            }
        }
    }
}

} // verus!
