//! What `dlog export` and `dlog import` share: the records of a file, and where an
//! export starts.
//!
//! A file holds one record per line: a header first, then tasks, decisions and
//! invariants, each ascending by id. Only sealed decisions cross this boundary: staging
//! is one agent's live work area, so an export never holds a staged row, and an import
//! refuses a file that does.
use crate::commands::{failure, AppError};
use crate::ids::{is_id, is_id_text};
use crate::log::{InvariantRecord, InvariantRecordView, TaskRecord, TaskRecordView};
use crate::model::{StoredDecision, StoredDecisionView};
use crate::store::{SinceBound, SinceBoundView};
use crate::text::facts::fields_stand_between;
use crate::text::{self, fields_of, is_number, number_value, trimmed};
use vstd::arithmetic::div_mod::{
    lemma_fundamental_div_mod, lemma_fundamental_div_mod_converse, lemma_mod_bound,
};
use vstd::prelude::*;

verus! {

/// Version of the file format, independent of the store's schema version. An importer
/// that meets a format it does not know refuses the file rather than guessing at it.
pub const FORMAT_VERSION: u32 = 1;

/// The first record of an export.
#[derive(Debug, PartialEq, Eq)]
pub struct Header {
    pub format: u32,
    /// The exporting store's schema version, for diagnosis only.
    pub schema_version: i64,
    pub exported_at: i64,
}

/// The value of a `Header`.
pub ghost struct HeaderView {
    pub format: u32,
    pub schema_version: i64,
    pub exported_at: i64,
}

impl DeepView for Header {
    type V = HeaderView;

    open spec fn deep_view(&self) -> HeaderView {
        HeaderView {
            format: self.format,
            schema_version: self.schema_version,
            exported_at: self.exported_at,
        }
    }
}

impl View for Header {
    type V = HeaderView;

    open spec fn view(&self) -> HeaderView {
        self.deep_view()
    }
}

impl Clone for Header {
    fn clone(&self) -> (r: Self)
        ensures
            r@ == self@,
    {
        Header {
            format: self.format,
            schema_version: self.schema_version,
            exported_at: self.exported_at,
        }
    }
}

/// One record of an export file.
#[derive(Debug, PartialEq, Eq)]
pub enum Record {
    Header(Header),
    Task(TaskRecord),
    Decision(Box<StoredDecision>),
    Invariant(InvariantRecord),
}

/// The value of a `Record`.
pub ghost enum RecordView {
    Header(HeaderView),
    Task(TaskRecordView),
    Decision(StoredDecisionView),
    Invariant(InvariantRecordView),
}

impl DeepView for Record {
    type V = RecordView;

    open spec fn deep_view(&self) -> RecordView {
        match self {
            Record::Header(h) => RecordView::Header(h@),
            Record::Task(t) => RecordView::Task(t@),
            Record::Decision(d) => RecordView::Decision((*d)@),
            Record::Invariant(v) => RecordView::Invariant(v@),
        }
    }
}

impl View for Record {
    type V = RecordView;

    open spec fn view(&self) -> RecordView {
        self.deep_view()
    }
}

// ---- Dates ------------------------------------------------------------------

/// A leap year of the Gregorian calendar.
pub open spec fn leap(year: int) -> bool {
    (year % 4 == 0 && year % 100 != 0) || year % 400 == 0
}

/// How many days a month has; none outside the year.
pub open spec fn month_days(year: int, month: int) -> int {
    if month == 1 || month == 3 || month == 5 || month == 7 || month == 8 || month == 10 || month == 12 {
        31
    } else if month == 4 || month == 6 || month == 9 || month == 11 {
        30
    } else if month == 2 {
        if leap(year) {
            29
        } else {
            28
        }
    } else {
        0
    }
}

/// How many days a year has.
pub open spec fn year_days(year: int) -> int {
    if leap(year) {
        366
    } else {
        365
    }
}

/// The first day of a year, counted from the first day of 1970.
pub open spec fn year_start(year: int) -> int
    decreases
        (if year >= 1970 {
            year - 1970
        } else {
            1970 - year
        }),
{
    if year == 1970 {
        0
    } else if year > 1970 {
        year_start(year - 1) + year_days(year - 1)
    } else {
        year_start(year + 1) - year_days(year)
    }
}

/// The first day of a month, counted from the first day of its year.
pub open spec fn month_start(year: int, month: int) -> int
    decreases month,
{
    if month <= 1 {
        0
    } else {
        month_start(year, month - 1) + month_days(year, month - 1)
    }
}

/// The day of a date, counted from the first day of 1970.
pub open spec fn day_number(year: int, month: int, day: int) -> int {
    year_start(year) + month_start(year, month) + day - 1
}

/// The days of whole years before the year `y`, from an origin of the calendar.
spec fn year_sum(y: int) -> int {
    365 * y + y / 4 - y / 100 + y / 400
}

/// A year starts where the years before it end.
proof fn year_start_is_sum(year: int)
    ensures
        year_start(year) == year_sum(year - 1) - 719162,
    decreases
        (if year >= 1970 {
            year - 1970
        } else {
            1970 - year
        }),
{
    if year > 1970 {
        year_start_is_sum(year - 1);
        year_sum_steps(year - 1);
    } else if year < 1970 {
        year_start_is_sum(year + 1);
        year_sum_steps(year);
    }
}

proof fn year_sum_steps(y: int)
    ensures
        year_sum(y) - year_sum(y - 1) == year_days(y),
{
    assert(y / 4 - (y - 1) / 4 == (if y % 4 == 0 {
        1int
    } else {
        0int
    }));
    assert(y / 100 - (y - 1) / 100 == (if y % 100 == 0 {
        1int
    } else {
        0int
    }));
    assert(y / 400 - (y - 1) / 400 == (if y % 400 == 0 {
        1int
    } else {
        0int
    }));
    assert(y % 400 == 0 ==> y % 100 == 0);
    assert(y % 100 == 0 ==> y % 4 == 0);
}

/// Whether a year is a multiple of `n`.
fn is_multiple(year: i64, n: i64) -> (r: bool)
    requires
        n > 0,
    ensures
        r == (year as int % n as int == 0),
{
    if year >= 0 {
        year % n == 0
    } else {
        let back: i64 = -(year + 1);
        proof {
            let q = back as int / n as int;
            let rest = back as int % n as int;
            lemma_fundamental_div_mod(back as int, n as int);
            lemma_mod_bound(back as int, n as int);
            assert(year as int == (-q - 1) * (n as int) + (n - 1 - rest)) by (nonlinear_arith)
                requires
                    year as int == -(back as int) - 1,
                    back as int == (n as int) * q + rest,
            ;
            lemma_fundamental_div_mod_converse(year as int, n as int, -q - 1, n - 1 - rest);
        }
        back % n == n - 1
    }
}

/// Whether a year is a leap year.
pub fn is_leap(year: i64) -> (r: bool)
    ensures
        r == leap(year as int),
{
    (is_multiple(year, 4) && !is_multiple(year, 100)) || is_multiple(year, 400)
}

/// How many days a month has.
pub fn days_in_month(year: i64, month: u32) -> (r: u32)
    ensures
        r == month_days(year as int, month as int),
{
    if month == 1 || month == 3 || month == 5 || month == 7 || month == 8 || month == 10 || month == 12 {
        31
    } else if month == 4 || month == 6 || month == 9 || month == 11 {
        30
    } else if month == 2 {
        if is_leap(year) {
            29
        } else {
            28
        }
    } else {
        0
    }
}

/// The day of a date, counted from the first day of 1970. Further years overflow on the
/// way.
pub fn days_from_civil(year: i64, month: u32, day: u32) -> (r: i64)
    requires
        -25_252_734_927_764_399 <= year <= 25_252_734_927_766_399,
        1 <= month <= 12,
        1 <= day <= 31,
    ensures
        r == day_number(year as int, month as int, day as int),
{
    // Years are counted from March, so that a leap day comes last.
    let y: i64 = if month <= 2 {
        year - 1
    } else {
        year
    };
    let era: i64 = (if y >= 0 {
        y
    } else {
        y - 399
    }) / 400;
    assert(era == y as int / 400);
    let yoe: i64 = y - era * 400;
    let m: i64 = month as i64;
    let d: i64 = day as i64;
    let mp: i64 = if m > 2 {
        m - 3
    } else {
        m + 9
    };
    let doy: i64 = (153 * mp + 2) / 5 + d - 1;
    let doe: i64 = yoe * 365 + yoe / 4 - yoe / 100 + doy;
    proof {
        assert(0 <= yoe < 400);
        assert(y as int / 4 == 100 * era + yoe as int / 4);
        assert(y as int / 100 == 4 * era + yoe as int / 100);
        assert(era * 146097 + yoe * 365 + yoe as int / 4 - yoe as int / 100 == year_sum(y as int));
        year_start_is_sum(year as int);
        year_sum_steps(year as int);
        month_starts(year as int);
    }
    era * 146_097 + doe - 719_468
}

/// Where the months start.
proof fn month_starts(year: int)
    ensures
        month_start(year, 1) == 0,
        month_start(year, 2) == 31,
        ({
            let feb = if leap(year) {
                29int
            } else {
                28int
            };
            &&& month_start(year, 3) == 31 + feb
            &&& month_start(year, 4) == 62 + feb
            &&& month_start(year, 5) == 92 + feb
            &&& month_start(year, 6) == 123 + feb
            &&& month_start(year, 7) == 153 + feb
            &&& month_start(year, 8) == 184 + feb
            &&& month_start(year, 9) == 215 + feb
            &&& month_start(year, 10) == 245 + feb
            &&& month_start(year, 11) == 276 + feb
            &&& month_start(year, 12) == 306 + feb
        }),
{
    reveal_with_fuel(month_start, 13);
}

/// The instant that a date names: its midnight, epoch milliseconds. Nothing where the
/// text is not `YYYY-MM-DD` or no real date.
pub open spec fn date_millis(raw: Seq<char>) -> Option<int> {
    let parts = fields_of(raw, '-');
    if parts.len() == 3 && is_field(parts[0], 4) && is_field(parts[1], 2) && is_field(parts[2], 2) {
        let year = number_value(parts[0]) as int;
        let month = number_value(parts[1]) as int;
        let day = number_value(parts[2]) as int;
        if 1 <= month <= 12 && 1 <= day <= month_days(year, month) {
            Some(day_number(year, month, day) * 86_400_000)
        } else {
            None
        }
    } else {
        None
    }
}

/// A field of a date: so many digits, and nothing else.
pub open spec fn is_field(s: Seq<char>, width: nat) -> bool {
    s.len() == width && is_number(s)
}

spec fn pow10(n: nat) -> nat
    decreases n,
{
    if n == 0 {
        1
    } else {
        10 * pow10((n - 1) as nat)
    }
}

proof fn number_bound(s: Seq<char>)
    requires
        s.len() <= 4,
    ensures
        text::is_number(s) ==> text::number_value(s) < 10_000,
{
    reveal_with_fuel(pow10, 6);
    if text::is_number(s) {
        digits_bound(s);
    }
}

proof fn digits_bound(s: Seq<char>)
    requires
        forall|i: int| 0 <= i < s.len() ==> text::is_digit(#[trigger] s[i]),
    ensures
        text::number_value(s) < pow10(s.len()),
    decreases s.len(),
{
    if s.len() > 0 {
        let t = s.drop_last();
        assert forall|i: int| 0 <= i < t.len() implies text::is_digit(#[trigger] t[i]) by {
            assert(text::is_digit(s[i]));
        }
        digits_bound(t);
        assert(text::is_digit(s[s.len() - 1]));
    }
}

/// Reads a field of a date: `width` digits.
fn date_field(s: &str, width: usize) -> (r: Option<u32>)
    requires
        width <= 4,
    ensures
        match r {
            Some(n) => is_field(s@, width as nat) && number_value(s@) == n && n < 10_000,
            None => !is_field(s@, width as nat),
        },
{
    let v = text::chars_of(s);
    if v.len() != width {
        return None;
    }
    for i in 0..v.len()
        invariant
            v@ == s@,
            forall|j: int| 0 <= j < i ==> text::is_digit(#[trigger] s@[j]),
    {
        if v[i] < '0' || v[i] > '9' {
            assert(!text::is_digit(s@[i as int]));
            return None;
        }
    }
    proof {
        number_bound(s@);
    }
    text::parse_u32(s)
}

/// Reads a `YYYY-MM-DD` date as epoch milliseconds at UTC midnight.
pub fn parse_utc_date_ms(raw: &str) -> (r: Option<i64>)
    ensures
        match r {
            Some(ms) => date_millis(raw@) == Some(ms as int),
            None => date_millis(raw@) is None,
        },
{
    let parts = text::split(raw, '-');
    let ghost p = parts.deep_view();
    if parts.len() != 3 {
        return None;
    }
    assert(p[0] == parts[0]@ && p[1] == parts[1]@ && p[2] == parts[2]@);
    let year: i64 = match date_field(parts[0].as_str(), 4) {
        Some(y) => y as i64,
        None => {
            return None;
        },
    };
    let month: u32 = match date_field(parts[1].as_str(), 2) {
        Some(m) => m,
        None => {
            return None;
        },
    };
    let day: u32 = match date_field(parts[2].as_str(), 2) {
        Some(d) => d,
        None => {
            return None;
        },
    };
    if month < 1 || month > 12 || day < 1 || day > days_in_month(year, month) {
        return None;
    }
    proof {
        year_start_is_sum(year as int);
        month_starts(year as int);
    }
    let days: i64 = days_from_civil(year, month, day);
    assert(-10_000_000 < days < 10_000_000);
    Some(days * 86_400_000)
}

// ---- Where an export starts -------------------------------------------------

/// A text in quotes, as the standard library's `Debug` writes it.
pub uninterp spec fn debug_text(s: Seq<char>) -> Seq<char>;

/// `format!` with `{:?}` of a string: the text in double quotes, with what does not
/// print escaped.
#[verifier::external_body]
fn debug_quoted(s: &str) -> (r: String)
    ensures
        r@ == debug_text(s@),
{
    format!("{s:?}")
}

/// The bound that a text names: an id (that decision onwards), or a date in UTC
/// (everything recorded on or after midnight).
pub open spec fn since_of(raw: Seq<char>) -> Option<SinceBoundView> {
    if is_id_text(trimmed(raw)) {
        Some(SinceBoundView::Id(trimmed(raw)))
    } else {
        match date_millis(trimmed(raw)) {
            Some(ms) => Some(SinceBoundView::Ms(ms as i64)),
            None => None,
        }
    }
}

/// Reads the lower bound of an export.
pub fn parse_since(raw: &str) -> (r: Result<SinceBound, AppError>)
    ensures
        match r {
            Ok(bound) => since_of(raw@) == Some(bound@),
            Err(e) => since_of(raw@) is None && e@ == failure(
                "invalid_since"@,
                "--since must be a decision id (ULID) or a YYYY-MM-DD date, got "@ + debug_text(
                    trimmed(raw@),
                ),
            ),
        },
{
    let raw = text::trim(raw);
    if is_id(raw.as_str()) {
        return Ok(SinceBound::Id(raw));
    }
    match parse_utc_date_ms(raw.as_str()) {
        Some(ms) => Ok(SinceBound::Ms(ms)),
        None => {
            let message = text::cat(
                "--since must be a decision id (ULID) or a YYYY-MM-DD date, got ",
                debug_quoted(raw.as_str()).as_str(),
            );
            Err(AppError::new("invalid_since", message.as_str()))
        },
    }
}

// ---- Laws -------------------------------------------------------------------

/// The day after a date.
pub open spec fn next_day(year: int, month: int, day: int) -> (int, int, int) {
    if day < month_days(year, month) {
        (year, month, day + 1)
    } else if month < 12 {
        (year, month + 1, 1)
    } else {
        (year + 1, 1, 1)
    }
}

/// Days are counted one by one, across the ends of months and years, from the first day
/// of 1970.
pub proof fn days_count_by_one(year: int, month: int, day: int)
    requires
        1 <= month <= 12,
        1 <= day <= month_days(year, month),
    ensures
        ({
            let next = next_day(year, month, day);
            day_number(next.0, next.1, next.2) == day_number(year, month, day) + 1
        }),
        day_number(1970, 1, 1) == 0,
{
    if day == month_days(year, month) {
        if month < 12 {
            months_follow_months(year, month);
        } else {
            years_follow_years(year);
        }
    }
    month_starts(1970);
}

/// A later date has a greater number.
pub proof fn later_days_count_more(a: (int, int, int), b: (int, int, int))
    requires
        1 <= a.1 <= 12 && 1 <= a.2 <= month_days(a.0, a.1),
        1 <= b.1 <= 12 && 1 <= b.2 <= month_days(b.0, b.1),
        a.0 < b.0 || (a.0 == b.0 && (a.1 < b.1 || (a.1 == b.1 && a.2 < b.2))),
    ensures
        day_number(a.0, a.1, a.2) < day_number(b.0, b.1, b.2),
{
    month_starts(a.0);
    month_starts(b.0);
    if a.0 < b.0 {
        year_start_grows(a.0, b.0);
    } else if a.1 < b.1 {
        month_start_grows(a.0, a.1, b.1);
    }
}

/// A month starts once the months before it have passed.
proof fn month_start_grows(year: int, month: int, later: int)
    requires
        1 <= month < later <= 12,
    ensures
        month_start(year, month) + month_days(year, month) <= month_start(year, later),
    decreases later,
{
    if month + 1 < later {
        month_start_grows(year, month, later - 1);
    }
}

/// A year starts once the years before it have passed.
proof fn year_start_grows(year: int, later: int)
    requires
        year < later,
    ensures
        year_start(year) + year_days(year) <= year_start(later),
    decreases later - year,
{
    year_start_is_sum(later - 1);
    year_start_is_sum(later);
    year_sum_steps(later - 1);
    if year + 1 < later {
        year_start_grows(year, later - 1);
    }
}

/// The next day of a month has the next number.
pub proof fn days_follow_days(year: int, month: int, day: int)
    ensures
        day_number(year, month, day + 1) == day_number(year, month, day) + 1,
{
}

/// The first of a month follows the last of the month before.
pub proof fn months_follow_months(year: int, month: int)
    requires
        1 <= month < 12,
    ensures
        day_number(year, month + 1, 1) == day_number(year, month, month_days(year, month)) + 1,
{
}

/// The first of a year follows the last of the year before.
pub proof fn years_follow_years(year: int)
    ensures
        day_number(year + 1, 1, 1) == day_number(year, 12, 31) + 1,
{
    month_starts(year);
    month_starts(year + 1);
    year_start_is_sum(year);
    year_start_is_sum(year + 1);
    year_sum_steps(year);
}

/// The Gregorian calendar: every fourth year is a leap year, but of the centuries only every
/// fourth; a year has 365 days, a leap year 366; and the months have their lengths.
pub proof fn calendar_is_gregorian(year: int)
    ensures
        leap(year) <==> year % 4 == 0 && (year % 100 == 0 ==> year % 400 == 0),
        month_days(year, 1) == 31,
        month_days(year, 2) == (if leap(year) {
            29
        } else {
            28int
        }),
        month_days(year, 3) == 31,
        month_days(year, 4) == 30,
        month_days(year, 5) == 31,
        month_days(year, 6) == 30,
        month_days(year, 7) == 31,
        month_days(year, 8) == 31,
        month_days(year, 9) == 30,
        month_days(year, 10) == 31,
        month_days(year, 11) == 30,
        month_days(year, 12) == 31,
        month_start(year, 12) + month_days(year, 12) == (if leap(year) {
            366
        } else {
            365int
        }),
        day_number(year + 1, 1, 1) - day_number(year, 1, 1) == (if leap(year) {
            366
        } else {
            365int
        }),
{
    month_starts(year);
    month_starts(year + 1);
    year_start_is_sum(year);
    year_start_is_sum(year + 1);
    year_sum_steps(year);
}

/// A date is four digits, two digits and two digits with a `-` between them, and stands for
/// the midnight that starts it; a day that is not in the calendar is no date.
pub proof fn dates_are_read(year: Seq<char>, month: Seq<char>, day: Seq<char>)
    requires
        year.len() == 4 && is_number(year),
        month.len() == 2 && is_number(month),
        day.len() == 2 && is_number(day),
    ensures
        ({
            let (y, m, d) = (
                number_value(year) as int,
                number_value(month) as int,
                number_value(day) as int,
            );
            let read = date_millis(year + seq!['-'] + month + seq!['-'] + day);
            &&& 1 <= m <= 12 && 1 <= d <= month_days(y, m) ==> read == Some(day_number(y, m, d) * 86_400_000)
            &&& !(1 <= m <= 12 && 1 <= d <= month_days(y, m)) ==> read is None
        }),
{
    digits_hold_no_dash(year);
    digits_hold_no_dash(month);
    digits_hold_no_dash(day);
    let s = year + seq!['-'] + month + seq!['-'] + day;
    let rest = month.push('-') + day;
    assert(s =~= year.push('-') + rest);
    fields_stand_between(year, rest, '-');
    fields_stand_between(month, day, '-');
    fields_stand_between(day, day, '-');
    assert(fields_of(s, '-') =~= seq![year, month, day]);
}

proof fn digits_hold_no_dash(s: Seq<char>)
    requires
        is_number(s),
    ensures
        !s.contains('-'),
{
    if s.contains('-') {
        assert(text::is_digit(s[s.index_of('-')]));
    }
}

/// Whatever reads as a date has that form.
pub proof fn only_dates_are_read(raw: Seq<char>)
    requires
        date_millis(raw) is Some,
    ensures
        fields_of(raw, '-').len() == 3,
        forall|k: int|
            0 <= k < 3 ==> is_number(#[trigger] fields_of(raw, '-')[k]) && fields_of(raw, '-')[k].len() == (if k
                == 0 {
                4
            } else {
                2int
            }),
{
    let parts = fields_of(raw, '-');
    assert forall|k: int| 0 <= k < 3 implies is_number(#[trigger] parts[k]) && parts[k].len() == (if k == 0 {
        4
    } else {
        2int
    }) by {
        assert(parts[k] == parts[0] || parts[k] == parts[1] || parts[k] == parts[2]);
    }
}

/// Where an export starts: an id is taken as it is, a date as its midnight, and anything
/// else names nothing. White space around it does not count.
pub proof fn bounds_are_read(raw: Seq<char>)
    ensures
        is_id_text(trimmed(raw)) ==> since_of(raw) == Some(SinceBoundView::Id(trimmed(raw))),
        !is_id_text(trimmed(raw)) ==> (date_millis(trimmed(raw)) matches Some(ms) ==> since_of(raw) == Some(
            SinceBoundView::Ms(ms as i64),
        )),
        !is_id_text(trimmed(raw)) && date_millis(trimmed(raw)) is None ==> since_of(raw) is None,
{
}

} // verus!
