//! Full-text search over decision prose.
//!
//! The text index is an FTS5 table in a private in-memory SQLite database, filled
//! from the log for each search.
use crate::model::{Rejected, RejectedView, StoredDecision, StoredDecisionView};
use crate::text::{self, words_of};
use vstd::prelude::*;

verus! {

// ---- The query --------------------------------------------------------------

/// A word as a quoted literal term: double quotes around it, its own doubled.
pub open spec fn quoted(word: Seq<char>) -> Seq<char> {
    seq!['"'] + text::replaced(word, '"', "\"\""@) + seq!['"']
}

/// The words of a query as quoted literal terms, which the index joins by AND.
pub open spec fn literal_query(raw: Seq<char>) -> Seq<char> {
    text::joined(words_of(raw).map_values(|w: Seq<char>| quoted(w)), " "@)
}

/// Turns raw text into a query of quoted literal terms, so that operators, quotes
/// and punctuation in it cannot cause syntax errors. Blank text yields an empty
/// query.
pub fn fts5_literal_query(raw: &str) -> (r: String)
    ensures
        r@ == literal_query(raw@),
        r@.len() == 0 <==> words_of(raw@).len() == 0,
{
    let words = text::split_whitespace(raw);
    let ghost all = words.deep_view();
    let ghost f = |w: Seq<char>| quoted(w);
    let mut terms: Vec<String> = Vec::new();
    assert(terms.deep_view() =~= all.take(0).map_values(f));
    for i in 0..words.len()
        invariant
            all == words.deep_view(),
            f == (|w: Seq<char>| quoted(w)),
            terms.deep_view() == all.take(i as int).map_values(f),
    {
        let ghost before = terms.deep_view();
        let doubled = text::replace(words[i].as_str(), '"', "\"\"");
        let mut term = String::new();
        term.push('"');
        text::push_str(&mut term, doubled.as_str());
        term.push('"');
        assert(term@ =~= quoted(all[i as int]));
        terms.push(term);
        assert(terms.deep_view() =~= before.push(quoted(all[i as int])));
        assert(all.take(i + 1).map_values(f) =~= before.push(quoted(all[i as int])));
    }
    assert(all.take(all.len() as int) =~= all);
    proof {
        let q = all.map_values(f);
        if q.len() > 0 {
            assert(q.last().len() > 0);
            assert(q[0].len() > 0);
        }
    }
    text::join(&terms, " ")
}

// ---- The index --------------------------------------------------------------

/// One indexed decision: its id, its rationale and the text of what it rejected.
pub ghost struct Document {
    pub id: Seq<char>,
    pub rationale: Seq<char>,
    pub rejected: Seq<char>,
}

/// A connection to an SQLite database.
#[verifier::external_type_specification]
#[verifier::external_body]
pub struct ExConnection(rusqlite::Connection);

/// An SQLite error.
#[verifier::external_type_specification]
#[verifier::external_body]
pub struct ExSqliteError(rusqlite::Error);

/// The documents that a text index holds, in the order of insertion.
pub uninterp spec fn documents_in(index: rusqlite::Connection) -> Seq<Document>;

/// The ids of the documents that an FTS5 query matches.
pub uninterp spec fn matching(documents: Seq<Document>, query: Seq<char>) -> Set<Seq<char>>;

/// The ids stand as FTS5 ranks their documents for the query, best first. Documents of
/// one rank may stand either way.
pub uninterp spec fn ranked(documents: Seq<Document>, query: Seq<char>, ids: Seq<Seq<char>>) -> bool;

/// `rusqlite::Connection::open_in_memory`: a private database, empty at first.
#[verifier::external_body]
fn open_database() -> (r: Result<rusqlite::Connection, rusqlite::Error>)
    ensures
        r matches Ok(index) ==> documents_in(index) == Seq::<Document>::empty(),
{
    rusqlite::Connection::open_in_memory()
}

/// `rusqlite::Connection::execute_batch` with a CREATE: the FTS5 table that holds the
/// documents. It adds none.
#[verifier::external_body]
fn create_table(index: &mut rusqlite::Connection) -> (r: Result<(), rusqlite::Error>)
    ensures
        documents_in(*final(index)) == documents_in(*old(index)),
{
    index.execute_batch(
        "CREATE VIRTUAL TABLE prose USING fts5(decision_id UNINDEXED, rationale, rejected)",
    )
}

/// `rusqlite::Connection::execute` with an INSERT: one document more at the end, or
/// none where it fails.
#[verifier::external_body]
fn add_document(
    index: &mut rusqlite::Connection,
    id: &str,
    rationale: &str,
    rejected: &str,
) -> (r: Result<usize, rusqlite::Error>)
    ensures
        documents_in(*final(index)) == (if r is Ok {
            documents_in(*old(index)).push(Document { id: id@, rationale: rationale@, rejected: rejected@ })
        } else {
            documents_in(*old(index))
        }),
{
    index.execute(
        "INSERT INTO prose(decision_id, rationale, rejected) VALUES(?1, ?2, ?3)",
        [id, rationale, rejected],
    )
}

/// `rusqlite::Statement::query_map` with a MATCH: the ids of the matching documents,
/// each document once, and best first: in the order that FTS5's `rank` column gives
/// them. What makes one better is a floating-point number that `rank` computes, and is
/// not stated.
#[verifier::external_body]
fn matching_documents(index: &rusqlite::Connection, query: &str) -> (r: Result<
    Vec<String>,
    rusqlite::Error,
>)
    ensures
        r matches Ok(ids) ==> ids.deep_view().to_set() == matching(documents_in(*index), query@),
        r matches Ok(ids) ==> ranked(documents_in(*index), query@, ids.deep_view()),
        r matches Ok(ids) ==> forall|id: Seq<char>| #[trigger]
            ids.deep_view().contains(id) ==> exists|i: int|
                0 <= i < documents_in(*index).len() && (#[trigger] documents_in(*index)[i]).id == id,
        r matches Ok(ids) ==> distinct(documents_in(*index)) ==> ids.deep_view().no_duplicates(),
{
    index
        .prepare("SELECT decision_id FROM prose WHERE prose MATCH ?1 ORDER BY rank")?
        .query_map([query], |row| row.get(0))?
        .collect()
}

/// What an SQLite error says: `to_string` of its `Display`. The words are not stated.
#[verifier::external_body]
fn sqlite_words(e: &rusqlite::Error) -> (r: String) {
    e.to_string()
}

/// No id is indexed twice.
pub open spec fn distinct(documents: Seq<Document>) -> bool {
    forall|i: int, j: int|
        0 <= i < j < documents.len() ==> (#[trigger] documents[i]).id != (#[trigger] documents[j]).id
}

/// The text of what a decision rejected: each approach and its reason, one to a line.
pub open spec fn rejected_prose(rejected: Seq<RejectedView>) -> Seq<char>
    decreases rejected.len(),
{
    if rejected.len() == 0 {
        Seq::empty()
    } else {
        rejected_prose(rejected.drop_last()) + rejected.last().approach + "\n"@ + rejected.last().reason
            + "\n"@
    }
}

/// A decision as it is indexed.
pub open spec fn document(d: StoredDecisionView) -> Document {
    Document { id: d.id, rationale: d.rationale, rejected: rejected_prose(d.rejected) }
}

/// The decisions as they are indexed.
pub open spec fn documents(decisions: Seq<StoredDecisionView>) -> Seq<Document> {
    decisions.map_values(|d: StoredDecisionView| document(d))
}

fn rejected_text(rejected: &Vec<Rejected>) -> (r: String)
    ensures
        r@ == rejected_prose(rejected.deep_view()),
{
    let ghost all = rejected.deep_view();
    let mut out = String::new();
    assert(all.take(0) =~= Seq::empty());
    for i in 0..rejected.len()
        invariant
            all == rejected.deep_view(),
            out@ == rejected_prose(all.take(i as int)),
    {
        assert(all.take(i + 1).drop_last() =~= all.take(i as int));
        assert(all.take(i + 1).last() == rejected[i as int]@);
        text::push_str(&mut out, rejected[i].approach.as_str());
        text::push_str(&mut out, "\n");
        text::push_str(&mut out, rejected[i].reason.as_str());
        text::push_str(&mut out, "\n");
    }
    assert(all.take(all.len() as int) =~= all);
    out
}

/// An index of the given decisions.
fn index_of(decisions: &Vec<StoredDecision>) -> (r: Result<rusqlite::Connection, rusqlite::Error>)
    ensures
        r matches Ok(index) ==> documents_in(index) == documents(decisions.deep_view()),
{
    let ghost all = decisions.deep_view();
    let mut index = open_database()?;
    create_table(&mut index)?;
    assert(documents_in(index) =~= documents(all.take(0)));
    for i in 0..decisions.len()
        invariant
            all == decisions.deep_view(),
            documents_in(index) == documents(all.take(i as int)),
    {
        let d = &decisions[i];
        let n: usize = add_document(
            &mut index,
            d.id.as_str(),
            d.rationale.as_str(),
            rejected_text(&d.rejected).as_str(),
        )?;
        assert(all[i as int] == decisions[i as int]@);
        assert(documents_in(index) =~= documents(all.take(i + 1)));
    }
    assert(all.take(all.len() as int) =~= all);
    Ok(index)
}

/// The decisions that a raw query finds in `decisions`, best first, or what SQLite
/// says went wrong.
pub fn search_prose(decisions: &Vec<StoredDecision>, query: &str) -> (r: Result<Vec<String>, String>)
    ensures
        words_of(query@).len() == 0 ==> (r matches Ok(ids) && ids@.len() == 0),
        r matches Ok(ids) ==> words_of(query@).len() > 0 ==> ids.deep_view().to_set() == matching(
            documents(decisions.deep_view()),
            literal_query(query@),
        ),
        r matches Ok(ids) ==> words_of(query@).len() > 0 ==> ranked(
            documents(decisions.deep_view()),
            literal_query(query@),
            ids.deep_view(),
        ),
        r matches Ok(ids) ==> forall|id: Seq<char>| #[trigger]
            ids.deep_view().contains(id) ==> exists|i: int|
                0 <= i < decisions@.len() && (#[trigger] decisions.deep_view()[i]).id == id,
        r matches Ok(ids) ==> distinct(documents(decisions.deep_view()))
            ==> ids.deep_view().no_duplicates(),
{
    let match_query = fts5_literal_query(query);
    if text::char_count(match_query.as_str()) == 0 {
        let none: Vec<String> = Vec::new();
        assert(none.deep_view() =~= Seq::empty());
        return Ok(none);
    }
    let ghost docs = documents(decisions.deep_view());
    let index = match index_of(decisions) {
        Ok(index) => index,
        Err(e) => {
            return Err(sqlite_words(&e));
        },
    };
    match matching_documents(&index, match_query.as_str()) {
        Ok(ids) => {
            assert forall|id: Seq<char>| #[trigger] ids.deep_view().contains(id) implies exists|i: int|
                0 <= i < decisions@.len() && (#[trigger] decisions.deep_view()[i]).id == id by {
                let k = choose|k: int|
                    0 <= k < documents_in(index).len() && (#[trigger] documents_in(index)[k]).id == id;
                assert(decisions.deep_view()[k].id == docs[k].id);
            }
            Ok(ids)
        },
        Err(e) => Err(sqlite_words(&e)),
    }
}

// ---- Laws -------------------------------------------------------------------

/// What a quoted string says, after its opening quote, and what follows its closing one:
/// a doubled quote stands for one, and a single one closes.
pub open spec fn read_body(s: Seq<char>) -> Option<(Seq<char>, Seq<char>)>
    decreases s.len(),
{
    if s.len() == 0 {
        None
    } else if s[0] == '"' {
        if s.len() > 1 && s[1] == '"' {
            match read_body(s.skip(2)) {
                Some((body, rest)) => Some((seq!['"'] + body, rest)),
                None => None,
            }
        } else {
            Some((Seq::empty(), s.skip(1)))
        }
    } else {
        match read_body(s.skip(1)) {
            Some((body, rest)) => Some((seq![s[0]] + body, rest)),
            None => None,
        }
    }
}

proof fn read_body_shrinks(s: Seq<char>)
    ensures
        read_body(s) matches Some((_, rest)) ==> rest.len() < s.len(),
    decreases s.len(),
{
    if s.len() > 0 {
        if s[0] == '"' {
            if s.len() > 1 && s[1] == '"' {
                read_body_shrinks(s.skip(2));
            }
        } else {
            read_body_shrinks(s.skip(1));
        }
    }
}

/// The literal terms of a query that is made of quoted strings and spaces alone. Anything
/// outside quotes makes it none.
pub open spec fn read_terms(s: Seq<char>) -> Option<Seq<Seq<char>>>
    decreases s.len(),
    via read_terms_decreases
{
    if s.len() == 0 {
        Some(Seq::empty())
    } else if s[0] == ' ' {
        read_terms(s.skip(1))
    } else if s[0] == '"' {
        match read_body(s.skip(1)) {
            Some((term, rest)) => match read_terms(rest) {
                Some(terms) => Some(seq![term] + terms),
                None => None,
            },
            None => None,
        }
    } else {
        None
    }
}

#[via_fn]
proof fn read_terms_decreases(s: Seq<char>) {
    if s.len() > 0 {
        read_body_shrinks(s.skip(1));
    }
}

/// Replacement goes character by character, from the front as from the back.
proof fn replaced_from_front(s: Seq<char>, c: char, with: Seq<char>)
    requires
        s.len() > 0,
    ensures
        text::replaced(s, c, with) == (if s[0] == c {
            with
        } else {
            seq![s[0]]
        }) + text::replaced(s.drop_first(), c, with),
    decreases s.len(),
{
    let first = if s[0] == c {
        with
    } else {
        seq![s[0]]
    };
    if s.len() == 1 {
        reveal_with_fuel(text::replaced, 2);
        assert(s.drop_last() =~= Seq::empty());
        assert(s.drop_first() =~= Seq::empty());
        assert(text::replaced(s, c, with) =~= first + text::replaced(s.drop_first(), c, with));
    } else {
        let t = s.drop_last();
        replaced_from_front(t, c, with);
        assert(t.drop_first() =~= s.drop_first().drop_last());
        assert(s.drop_first().last() == s.last());
        assert(text::replaced(s, c, with) =~= first + text::replaced(s.drop_first(), c, with));
    }
}

/// A quoted word reads as the word.
proof fn quoted_reads_back(word: Seq<char>, rest: Seq<char>)
    requires
        rest.len() > 0 ==> rest[0] != '"',
    ensures
        read_body(text::replaced(word, '"', "\"\""@) + seq!['"'] + rest) == Some((word, rest)),
    decreases word.len(),
{
    reveal_strlit("\"\"");
    let doubled = "\"\""@;
    let body = text::replaced(word, '"', doubled);
    let s = body + seq!['"'] + rest;
    if word.len() == 0 {
        assert(body =~= Seq::empty());
        assert(s[0] == '"');
        if rest.len() > 0 {
            assert(s[1] == rest[0]);
        }
        assert(s.skip(1) =~= rest);
        assert(word =~= Seq::empty());
    } else {
        let tail = word.drop_first();
        let body_tail = text::replaced(tail, '"', doubled);
        replaced_from_front(word, '"', doubled);
        quoted_reads_back(tail, rest);
        assert(word =~= seq![word[0]] + tail);
        if word[0] == '"' {
            assert(s[0] == '"' && s[1] == '"');
            assert(s.skip(2) =~= body_tail + seq!['"'] + rest);
        } else {
            assert(s[0] == word[0]);
            assert(s.skip(1) =~= body_tail + seq!['"'] + rest);
        }
    }
}

/// Joining goes part by part, from the front as from the back.
proof fn joined_from_front(parts: Seq<Seq<char>>, sep: Seq<char>)
    requires
        parts.len() > 1,
    ensures
        text::joined(parts, sep) == parts[0] + sep + text::joined(parts.drop_first(), sep),
    decreases parts.len(),
{
    if parts.len() == 2 {
        reveal_with_fuel(text::joined, 3);
        assert(parts.drop_last() =~= seq![parts[0]]);
        assert(parts.drop_first() =~= seq![parts[1]]);
        assert(text::joined(parts, sep) =~= parts[0] + sep + text::joined(parts.drop_first(), sep));
    } else {
        let front = parts.drop_last();
        joined_from_front(front, sep);
        assert(front.drop_first() =~= parts.drop_first().drop_last());
        assert(parts.drop_first().last() == parts.last());
        assert(text::joined(parts, sep) =~= parts[0] + sep + text::joined(parts.drop_first(), sep));
    }
}

proof fn terms_read_back(words: Seq<Seq<char>>)
    ensures
        read_terms(text::joined(words.map_values(|w: Seq<char>| quoted(w)), " "@)) == Some(words),
    decreases words.len(),
{
    reveal_strlit(" ");
    let f = |w: Seq<char>| quoted(w);
    let parts = words.map_values(f);
    let s = text::joined(parts, " "@);
    if words.len() == 0 {
        assert(s =~= Seq::empty());
        assert(words =~= Seq::empty());
    } else {
        let word = words[0];
        let body = text::replaced(word, '"', "\"\""@);
        let tail = words.drop_first();
        terms_read_back(tail);
        assert(parts.drop_first() =~= tail.map_values(f));
        let rest = if words.len() == 1 {
            Seq::<char>::empty()
        } else {
            " "@ + text::joined(tail.map_values(f), " "@)
        };
        if words.len() > 1 {
            joined_from_front(parts, " "@);
        }
        assert(s =~= quoted(word) + rest);
        assert(s[0] == '"');
        assert(s.skip(1) =~= body + seq!['"'] + rest);
        quoted_reads_back(word, rest);
        assert(words =~= seq![word] + tail);
        if words.len() == 1 {
            assert(tail =~= Seq::empty());
            assert(read_terms(rest) == Some(tail));
        } else {
            assert(rest[0] == ' ');
            assert(rest.skip(1) =~= text::joined(tail.map_values(f), " "@));
            assert(read_terms(rest) == Some(tail));
        }
    }
}

/// Whatever a raw query holds, what is handed to the index is its words as literal terms
/// and nothing else: no character of it stands outside quotes, so none is an operator.
pub proof fn query_is_literal(raw: Seq<char>)
    ensures
        read_terms(literal_query(raw)) == Some(words_of(raw)),
{
    terms_read_back(words_of(raw));
}

/// Nothing that was rejected is left out of the index: each approach and each reason
/// stands there as whole lines, in the order they were named.
pub proof fn every_rejection_is_indexed(rejected: Seq<RejectedView>, k: int)
    requires
        0 <= k < rejected.len(),
    ensures
        exists|before: Seq<char>, after: Seq<char>|
            (before.len() == 0 || before.last() == '\n') && #[trigger] (before + rejected[k].approach
                + seq!['\n'] + rejected[k].reason + seq!['\n'] + after) == rejected_prose(rejected),
    decreases rejected.len(),
{
    reveal_strlit("\n");
    assert("\n"@ =~= seq!['\n']);
    let front = rejected.drop_last();
    let last = rejected.last();
    let tail = last.approach + seq!['\n'] + last.reason + seq!['\n'];
    if k < front.len() {
        every_rejection_is_indexed(front, k);
        assert(front[k] == rejected[k]);
        let (before, after) = choose|before: Seq<char>, after: Seq<char>|
            (before.len() == 0 || before.last() == '\n') && #[trigger] (before + front[k].approach
                + seq!['\n'] + front[k].reason + seq!['\n'] + after) == rejected_prose(front);
        assert(before + rejected[k].approach + seq!['\n'] + rejected[k].reason + seq!['\n'] + (after + tail)
            =~= rejected_prose(rejected));
    } else {
        let before = rejected_prose(front);
        prose_ends_a_line(front);
        assert(before + rejected[k].approach + seq!['\n'] + rejected[k].reason + seq!['\n']
            + Seq::<char>::empty() =~= rejected_prose(rejected));
    }
}

proof fn prose_ends_a_line(rejected: Seq<RejectedView>)
    ensures
        rejected_prose(rejected).len() == 0 || rejected_prose(rejected).last() == '\n',
{
    reveal_strlit("\n");
}

/// The text of alternatives is that of the first ones, then that of the others; that of
/// one alternative is its approach and its reason, each with a line break.
pub proof fn rejections_follow_each_other(a: Seq<RejectedView>, b: Seq<RejectedView>, one: RejectedView)
    ensures
        rejected_prose(a + b) == rejected_prose(a) + rejected_prose(b),
        rejected_prose(seq![one]) == one.approach + seq!['\n'] + one.reason + seq!['\n'],
        rejected_prose(Seq::empty()) == Seq::<char>::empty(),
    decreases b.len(),
{
    reveal_strlit("\n");
    assert("\n"@ =~= seq!['\n']);
    assert(rejected_prose(Seq::<RejectedView>::empty()) =~= Seq::<char>::empty());
    assert(seq![one].drop_last() =~= Seq::<RejectedView>::empty());
    assert(rejected_prose(seq![one]) =~= one.approach + seq!['\n'] + one.reason + seq!['\n']);
    if b.len() > 0 {
        rejections_follow_each_other(a, b.drop_last(), one);
        assert((a + b).drop_last() =~= a + b.drop_last());
        assert((a + b).last() == b.last());
        assert(rejected_prose(a + b) =~= rejected_prose(a) + rejected_prose(b));
    } else {
        assert(a + b =~= a);
        assert(rejected_prose(a) + rejected_prose(b) =~= rejected_prose(a));
    }
}

/// Every decision is indexed once, in the order of the log, under its own id and with its
/// whole rationale.
pub proof fn every_decision_is_indexed(decisions: Seq<StoredDecisionView>, i: int)
    requires
        0 <= i < decisions.len(),
    ensures
        documents(decisions).len() == decisions.len(),
        documents(decisions)[i].id == decisions[i].id,
        documents(decisions)[i].rationale == decisions[i].rationale,
        documents(decisions)[i].rejected == rejected_prose(decisions[i].rejected),
{
}

} // verus!
