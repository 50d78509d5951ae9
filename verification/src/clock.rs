//! Calendar dates and times for date resolution.
//!
//! Raw events carry only a local time of day. The engine combines that
//! time with the run's current date and, when the combination would lie
//! more than a grace window in the future, re-interprets the event as
//! having occurred on the previous calendar day (the clock rolled over
//! midnight between the agency's report and this run).
use vstd::prelude::*;

use crate::text::find_char;

verus! {

/// How far ahead of the run's clock an event time may lie before it is
/// pushed back to the previous day; absorbs small clock skew between
/// this process and the source agency.
pub const GRACE_MINUTES: u8 = 10;

/// A calendar date in the proleptic Gregorian calendar.
#[derive(Clone, Copy, PartialEq, Eq, Structural, Debug)]
pub struct Date {
    pub year: u16,
    pub month: u8,
    pub day: u8,
}

/// A local calendar date combined with a time of day, to the minute.
#[derive(Clone, Copy, PartialEq, Eq, Structural, Debug)]
pub struct DateTime {
    pub date: Date,
    pub hour: u8,
    pub minute: u8,
}

pub open spec fn is_leap_year(y: int) -> bool {
    y % 4 == 0 && (y % 100 != 0 || y % 400 == 0)
}

pub open spec fn days_in_month(y: int, m: int) -> int {
    if m == 2 {
        if is_leap_year(y) {
            29
        } else {
            28
        }
    } else if m == 4 || m == 6 || m == 9 || m == 11 {
        30
    } else {
        31
    }
}

impl Date {
    pub open spec fn wf(self) -> bool {
        &&& 1 <= self.year <= 9999
        &&& 1 <= self.month <= 12
        &&& 1 <= self.day <= days_in_month(self.year as int, self.month as int)
    }
}

impl DateTime {
    pub open spec fn wf(self) -> bool {
        self.date.wf() && self.hour < 24 && self.minute < 60
    }
}

fn days_in_month_x(y: u16, m: u8) -> (d: u8)
    ensures
        d as int == days_in_month(y as int, m as int),
{
    if m == 2 {
        if y % 4 == 0 && (y % 100 != 0 || y % 400 == 0) {
            29
        } else {
            28
        }
    } else if m == 4 || m == 6 || m == 9 || m == 11 {
        30
    } else {
        31
    }
}

/// The calendar day before `d`; the first representable day is its own
/// predecessor, so the function is total.
pub open spec fn prev_day_of(d: Date) -> Date {
    if d.day > 1 {
        Date { day: (d.day - 1) as u8, ..d }
    } else if d.month > 1 {
        Date {
            month: (d.month - 1) as u8,
            day: days_in_month(d.year as int, d.month - 1) as u8,
            ..d
        }
    } else if d.year > 1 {
        Date { year: (d.year - 1) as u16, month: 12, day: 31 }
    } else {
        d
    }
}

/// Steps a date back by one calendar day, rolling over month and year
/// boundaries.
pub fn pred_date(d: &Date) -> (r: Date)
    requires
        d.wf(),
    ensures
        r == prev_day_of(*d),
        r.wf(),
{
    if d.day > 1 {
        Date { day: d.day - 1, ..*d }
    } else if d.month > 1 {
        Date { month: d.month - 1, day: days_in_month_x(d.year, d.month - 1), ..*d }
    } else if d.year > 1 {
        Date { year: d.year - 1, month: 12, day: 31 }
    } else {
        *d
    }
}

/// A date-time flattened into a single totally ordered value: strictly
/// monotone in the lexicographic order of the fields, for well-formed
/// date-times.
pub open spec fn datetime_key_of(d: Date, hour: int, minute: int) -> int {
    ((((d.year * 13 + d.month) * 32 + d.day) * 24 + hour) * 60) + minute
}

/// Computes the order key of a date with a time of day.
pub fn datetime_key(d: &Date, hour: u8, minute: u8) -> (k: u64)
    ensures
        k as int == datetime_key_of(*d, hour as int, minute as int),
{
    ((((d.year as u64 * 13 + d.month as u64) * 32 + d.day as u64) * 24 + hour as u64) * 60)
        + minute as u64
}

pub open spec fn dt_lex_lt(a: DateTime, b: DateTime) -> bool {
    if a.date.year != b.date.year {
        a.date.year < b.date.year
    } else if a.date.month != b.date.month {
        a.date.month < b.date.month
    } else if a.date.day != b.date.day {
        a.date.day < b.date.day
    } else if a.hour != b.hour {
        a.hour < b.hour
    } else {
        a.minute < b.minute
    }
}

/// The flattened key orders well-formed date-times exactly as their
/// fields do lexicographically.
pub proof fn lemma_datetime_key_orders(a: DateTime, b: DateTime)
    requires
        a.wf(),
        b.wf(),
    ensures
        (datetime_key_of(a.date, a.hour as int, a.minute as int) < datetime_key_of(
            b.date,
            b.hour as int,
            b.minute as int,
        )) <==> dt_lex_lt(a, b),
        (datetime_key_of(a.date, a.hour as int, a.minute as int) == datetime_key_of(
            b.date,
            b.hour as int,
            b.minute as int,
        )) <==> a == b,
{
}

/// Whether an event reported at `hour:minute` lies more than the grace
/// window beyond the run's own time of day, so that it must belong to
/// the previous calendar day.
pub open spec fn rolls_back(now: DateTime, hour: int, minute: int) -> bool {
    hour * 60 + minute > now.hour * 60 + now.minute + GRACE_MINUTES
}

/// The calendar date assigned to an event reported at `hour:minute`
/// when the run's clock reads `now`.
pub open spec fn resolved_date_of(now: DateTime, hour: int, minute: int) -> Date {
    if rolls_back(now, hour, minute) {
        prev_day_of(now.date)
    } else {
        now.date
    }
}

/// Resolves the calendar date of an event from its bare time of day:
/// today, unless the combination would lie more than the grace window in
/// the future, in which case the previous day.
pub fn resolve_event_date(now: &DateTime, hour: u8, minute: u8) -> (d: Date)
    requires
        now.wf(),
        hour < 24,
        minute < 60,
    ensures
        d == resolved_date_of(*now, hour as int, minute as int),
        d.wf(),
{
    let event_minutes: u32 = hour as u32 * 60 + minute as u32;
    let now_minutes: u32 = now.hour as u32 * 60 + now.minute as u32 + GRACE_MINUTES as u32;
    if event_minutes > now_minutes {
        pred_date(&now.date)
    } else {
        now.date
    }
}

pub open spec fn is_digit(c: char) -> bool {
    48 <= c as u32 && c as u32 <= 57
}

pub open spec fn digit_val(c: char) -> int {
    c as u32 - 48
}

/// The value of a non-empty sequence of decimal digits.
pub open spec fn digits_val(s: Seq<char>) -> int
    decreases s.len(),
{
    if s.len() == 0 {
        0
    } else {
        digits_val(s.drop_last()) * 10 + digit_val(s.last())
    }
}

/// A well-formed local time of day: one or two hour digits, a colon, and
/// one or two minute digits, with the hour below 24 and the minute below
/// 60.
pub open spec fn valid_hhmm(s: Seq<char>) -> bool {
    let k = find_char(s, ':');
    &&& 1 <= k <= 2
    &&& k + 2 <= s.len() <= k + 3
    &&& forall|i: int| 0 <= i < s.len() && i != k ==> is_digit(#[trigger] s[i])
    &&& hhmm_hour(s) < 24
    &&& hhmm_minute(s) < 60
}

pub open spec fn hhmm_hour(s: Seq<char>) -> int {
    digits_val(s.subrange(0, find_char(s, ':')))
}

pub open spec fn hhmm_minute(s: Seq<char>) -> int {
    digits_val(s.subrange(find_char(s, ':') + 1, s.len() as int))
}

fn digit_of(c: char) -> (r: Option<u8>)
    ensures
        r is Some <==> is_digit(c),
        r matches Some(d) ==> d as int == digit_val(c) && d < 10,
{
    let v = c as u32;
    if 48 <= v && v <= 57 {
        Some((v - 48) as u8)
    } else {
        None
    }
}

proof fn lemma_digits_one(s: Seq<char>)
    requires
        s.len() == 1,
    ensures
        digits_val(s) == digit_val(s[0]),
{
    assert(s.drop_last() =~= Seq::<char>::empty());
    assert(digits_val(s.drop_last()) == 0);
}

proof fn lemma_digits_two(s: Seq<char>)
    requires
        s.len() == 2,
    ensures
        digits_val(s) == digit_val(s[0]) * 10 + digit_val(s[1]),
{
    assert(s.drop_last() =~= seq![s[0]]);
    lemma_digits_one(s.drop_last());
}

/// Parses a local time of day written `HH:MM` (one or two digits on
/// either side of the colon). Returns the hour and minute exactly when
/// the string is well formed; malformed times yield `None`, and the
/// event they belong to is dropped by the engine.
pub fn parse_time(s: &str) -> (r: Option<(u8, u8)>)
    ensures
        r is Some <==> valid_hhmm(s@),
        r matches Some(hm) ==> {
            &&& hm.0 as int == hhmm_hour(s@)
            &&& hm.1 as int == hhmm_minute(s@)
            &&& hm.0 < 24
            &&& hm.1 < 60
        },
{
    let n = s.unicode_len();
    if n < 3 || n > 5 {
        proof {
            let k = find_char(s@, ':');
            assert(!valid_hhmm(s@));
        }
        return None;
    }
    // locate the first colon
    let mut k: usize = 0;
    while k < n && s.get_char(k) != ':'
        invariant
            k <= n == s@.len(),
            forall|j: int| 0 <= j < k ==> s@[j] != ':',
        decreases n - k,
    {
        k = k + 1;
    }
    proof {
        if k < n {
            crate::text::lemma_find_char_at(s@, ':', k as int);
        } else {
            crate::text::lemma_find_char_none(s@, ':');
        }
    }
    if k < 1 || k > 2 || n < k + 2 || n > k + 3 {
        return None;
    }
    // hour digits stand before the colon, minute digits after it
    let hour: u32;
    if k == 1 {
        match digit_of(s.get_char(0)) {
            Some(d) => {
                proof {
                    lemma_digits_one(s@.subrange(0, 1));
                }
                hour = d as u32;
            },
            None => {
                return None;
            },
        }
    } else {
        match (digit_of(s.get_char(0)), digit_of(s.get_char(1))) {
            (Some(a), Some(b)) => {
                proof {
                    lemma_digits_two(s@.subrange(0, 2));
                }
                hour = a as u32 * 10 + b as u32;
            },
            _ => {
                return None;
            },
        }
    }
    let minute: u32;
    if n == k + 2 {
        match digit_of(s.get_char(k + 1)) {
            Some(d) => {
                proof {
                    lemma_digits_one(s@.subrange(k + 1, n as int));
                }
                minute = d as u32;
            },
            None => {
                return None;
            },
        }
    } else {
        match (digit_of(s.get_char(k + 1)), digit_of(s.get_char(k + 2))) {
            (Some(a), Some(b)) => {
                proof {
                    lemma_digits_two(s@.subrange(k + 1, n as int));
                }
                minute = a as u32 * 10 + b as u32;
            },
            _ => {
                return None;
            },
        }
    }
    proof {
        assert(hour as int == hhmm_hour(s@));
        assert(minute as int == hhmm_minute(s@));
    }
    if hour < 24 && minute < 60 {
        proof {
            assert(forall|i: int| 0 <= i < s@.len() && i != k ==> is_digit(#[trigger] s@[i]));
            assert(valid_hhmm(s@));
        }
        Some((hour as u8, minute as u8))
    } else {
        None
    }
}

pub proof fn lemma_digits_val_nonneg(s: Seq<char>)
    requires
        forall|i: int| 0 <= i < s.len() ==> is_digit(#[trigger] s[i]),
    ensures
        digits_val(s) >= 0,
    decreases s.len(),
{
    if s.len() > 0 {
        assert(forall|i: int|
            0 <= i < s.drop_last().len() ==> is_digit(#[trigger] s.drop_last()[i]));
        lemma_digits_val_nonneg(s.drop_last());
        assert(is_digit(s.last()));
    }
}

/// A well-formed time of day lies within the day.
pub proof fn lemma_hhmm_bounds(s: Seq<char>)
    requires
        valid_hhmm(s),
    ensures
        0 <= hhmm_hour(s) < 24,
        0 <= hhmm_minute(s) < 60,
{
    let k = find_char(s, ':');
    assert(forall|i: int|
        0 <= i < s.subrange(0, k).len() ==> is_digit(#[trigger] s.subrange(0, k)[i]));
    lemma_digits_val_nonneg(s.subrange(0, k));
    assert(forall|i: int|
        0 <= i < s.subrange(k + 1, s.len() as int).len() ==> is_digit(
            #[trigger] s.subrange(k + 1, s.len() as int)[i],
        ));
    lemma_digits_val_nonneg(s.subrange(k + 1, s.len() as int));
}

/// Reads the local wall clock.
///
/// Relies on chrono's `Local::now` together with the `Datelike` and
/// `Timelike` accessors: `month` ranges over 1..=12, `day` over 1..=31,
/// `hour` over 0..=23 and `minute` over 0..=59. The year is returned as
/// chrono reports it, unconstrained.
#[verifier::external_body]
fn read_system_clock() -> (r: (i32, u32, u32, u32, u32))
    ensures
        1 <= r.1 <= 12,
        1 <= r.2 <= 31,
        r.3 <= 23,
        r.4 <= 59,
{
    let now = chrono::Local::now();
    (
        chrono::Datelike::year(&now),
        chrono::Datelike::month(&now),
        chrono::Datelike::day(&now),
        chrono::Timelike::hour(&now),
        chrono::Timelike::minute(&now),
    )
}

/// The run's current local date and time, validated field by field;
/// `None` when the system clock reports a date outside the supported
/// calendar range.
pub fn now_datetime() -> (r: Option<DateTime>)
    ensures
        r matches Some(now) ==> now.wf(),
{
    let (year, month, day, hour, minute) = read_system_clock();
    if year < 1 || year > 9999 {
        return None;
    }
    let date = Date { year: year as u16, month: month as u8, day: day as u8 };
    if day as u8 > days_in_month_x(date.year, date.month) {
        return None;
    }
    Some(DateTime { date, hour: hour as u8, minute: minute as u8 })
}

} // verus!

use vstd::string::StrSliceExecFns;
