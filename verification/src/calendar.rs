//! Calendar dates, times of day and timestamps, and the grammar that reads
//! them from the fixed-width token `YYYY:MM:DD-hh:mm:ss`.
//!
//! Timestamps are naive: they carry no time zone and no fraction of a second.
//! A value of [`Date`], [`Time`] or [`Timestamp`] always names a day that
//! exists and a time of day that exists; whether it does is decided by
//! `chrono`.
use crate::scan::{
    digit, digit_value, is_digit, parsed, ParseError, COLON, DASH, DIGIT_ZERO,
};
use vstd::prelude::*;

verus! {

/// A year is a leap year of the proleptic Gregorian calendar.
pub open spec fn is_leap_year(year: int) -> bool {
    year % 4 == 0 && (year % 100 != 0 || year % 400 == 0)
}

/// The number of days of a month, for months 1 to 12.
pub open spec fn days_in_month(year: int, month: int) -> int {
    if month == 2 {
        if is_leap_year(year) {
            29
        } else {
            28
        }
    } else if month == 4 || month == 6 || month == 9 || month == 11 {
        30
    } else {
        31
    }
}

/// There is such a day: the month is 1 to 12 and the day is one of that
/// month in that year.
pub open spec fn is_calendar_date(year: int, month: int, day: int) -> bool {
    1 <= month <= 12 && 1 <= day <= days_in_month(year, month)
}

/// There is such a time of day: hour 0 to 23, minute and second 0 to 59.
pub open spec fn is_clock_time(hour: int, minute: int, second: int) -> bool {
    0 <= hour < 24 && 0 <= minute < 60 && 0 <= second < 60
}

/// The mathematical model of a [`Date`].
pub struct DateView {
    pub year: int,
    pub month: int,
    pub day: int,
}

/// The mathematical model of a [`Time`].
pub struct TimeView {
    pub hour: int,
    pub minute: int,
    pub second: int,
}

/// The mathematical model of a [`Timestamp`].
pub struct TimestampView {
    pub date: DateView,
    pub time: TimeView,
}

impl DateView {
    /// The day exists.
    pub open spec fn is_valid(self) -> bool {
        is_calendar_date(self.year, self.month, self.day)
    }

    /// This date is an earlier day than `other`.
    pub open spec fn before(self, other: DateView) -> bool {
        self.year < other.year || (self.year == other.year && (self.month < other.month || (
        self.month == other.month && self.day < other.day)))
    }

    /// A number that grows with the date: for two valid dates the earlier one
    /// has the smaller number (see [`lemma_ordinal_is_chronological`]).
    pub open spec fn ordinal(self) -> int {
        (self.year * 13 + self.month) * 32 + self.day
    }
}

impl TimeView {
    /// The time of day exists.
    pub open spec fn is_valid(self) -> bool {
        is_clock_time(self.hour, self.minute, self.second)
    }

    /// This time of day is earlier than `other`.
    pub open spec fn before(self, other: TimeView) -> bool {
        self.hour < other.hour || (self.hour == other.hour && (self.minute < other.minute || (
        self.minute == other.minute && self.second < other.second)))
    }

    /// The number of seconds since midnight.
    pub open spec fn second_of_day(self) -> int {
        (self.hour * 60 + self.minute) * 60 + self.second
    }
}

impl TimestampView {
    /// Both the date and the time of day exist.
    pub open spec fn is_valid(self) -> bool {
        self.date.is_valid() && self.time.is_valid()
    }

    /// This instant is earlier than `other`.
    pub open spec fn before(self, other: TimestampView) -> bool {
        self.date.before(other.date) || (self.date == other.date && self.time.before(other.time))
    }

    /// A number that grows with the instant: for two valid timestamps the
    /// earlier one has the smaller number (see
    /// [`lemma_ordinal_is_chronological`]). Timestamps are ordered by it.
    pub open spec fn ordinal(self) -> int {
        self.date.ordinal() * 86400 + self.time.second_of_day()
    }
}

/// Among valid timestamps the ordinal is smaller exactly for the earlier
/// instant, and equal only for the same instant.
pub proof fn lemma_ordinal_is_chronological(a: TimestampView, b: TimestampView)
    requires
        a.is_valid(),
        b.is_valid(),
    ensures
        a.ordinal() < b.ordinal() <==> a.before(b),
        a.ordinal() == b.ordinal() <==> a == b,
{
    lemma_date_ordinal(a.date, b.date);
    lemma_second_of_day(a.time, b.time);
}

/// Among valid dates the ordinal is smaller exactly for the earlier day.
proof fn lemma_date_ordinal(a: DateView, b: DateView)
    requires
        a.is_valid(),
        b.is_valid(),
    ensures
        a.ordinal() < b.ordinal() <==> a.before(b),
        a.ordinal() == b.ordinal() <==> a == b,
{
}

/// Among valid times of day the number of seconds since midnight is below a
/// day's length and smaller exactly for the earlier time.
proof fn lemma_second_of_day(a: TimeView, b: TimeView)
    requires
        a.is_valid(),
        b.is_valid(),
    ensures
        0 <= a.second_of_day() < 86400,
        0 <= b.second_of_day() < 86400,
        a.second_of_day() < b.second_of_day() <==> a.before(b),
        a.second_of_day() == b.second_of_day() <==> a == b,
{
}

/// A calendar date that exists.
#[derive(Clone, Copy, Debug, PartialEq, Eq, PartialOrd, Ord, Hash)]
pub struct Date {
    year: u16,
    month: u8,
    day: u8,
}

/// A time of day that exists, to the second.
#[derive(Clone, Copy, Debug, PartialEq, Eq, PartialOrd, Ord, Hash)]
pub struct Time {
    hour: u8,
    minute: u8,
    second: u8,
}

/// A date and a time of day, without time zone.
#[derive(Clone, Copy, Debug, PartialEq, Eq, PartialOrd, Ord, Hash)]
pub struct Timestamp {
    date: Date,
    time: Time,
}

impl View for Date {
    type V = DateView;

    closed spec fn view(&self) -> DateView {
        DateView { year: self.year as int, month: self.month as int, day: self.day as int }
    }
}

impl View for Time {
    type V = TimeView;

    closed spec fn view(&self) -> TimeView {
        TimeView {
            hour: self.hour as int,
            minute: self.minute as int,
            second: self.second as int,
        }
    }
}

impl View for Timestamp {
    type V = TimestampView;

    closed spec fn view(&self) -> TimestampView {
        TimestampView { date: self.date@, time: self.time@ }
    }
}

impl Date {
    #[verifier::type_invariant]
    spec fn exists_in_calendar(self) -> bool {
        self@.is_valid()
    }

    /// Makes the date of the given year, month and day, or `None` if there is
    /// no such day.
    pub fn new(year: u16, month: u8, day: u8) -> (r: Option<Date>)
        ensures
            r is Some <==> (DateView {
                year: year as int,
                month: month as int,
                day: day as int,
            }).is_valid(),
            r matches Some(date) ==> date@ == (DateView {
                year: year as int,
                month: month as int,
                day: day as int,
            }),
    {
        match chrono::NaiveDate::from_ymd_opt(year as i32, month as u32, day as u32) {
            Some(_) => Some(Date { year, month, day }),
            None => None,
        }
    }

    /// The year.
    pub fn year(&self) -> (year: u16)
        ensures
            year == self@.year,
            self@.is_valid(),
    {
        proof {
            use_type_invariant(self);
        }
        self.year
    }

    /// The month, 1 to 12.
    pub fn month(&self) -> (month: u8)
        ensures
            month == self@.month,
            self@.is_valid(),
    {
        proof {
            use_type_invariant(self);
        }
        self.month
    }

    /// The day of the month.
    pub fn day(&self) -> (day: u8)
        ensures
            day == self@.day,
            self@.is_valid(),
    {
        proof {
            use_type_invariant(self);
        }
        self.day
    }
}

impl Time {
    #[verifier::type_invariant]
    spec fn exists_in_day(self) -> bool {
        self@.is_valid()
    }

    /// Makes the time of day of the given hour, minute and second, or `None`
    /// if there is no such time.
    pub fn new(hour: u8, minute: u8, second: u8) -> (r: Option<Time>)
        ensures
            r is Some <==> (TimeView {
                hour: hour as int,
                minute: minute as int,
                second: second as int,
            }).is_valid(),
            r matches Some(time) ==> time@ == (TimeView {
                hour: hour as int,
                minute: minute as int,
                second: second as int,
            }),
    {
        match chrono::NaiveTime::from_hms_opt(hour as u32, minute as u32, second as u32) {
            Some(_) => Some(Time { hour, minute, second }),
            None => None,
        }
    }

    /// The hour, 0 to 23.
    pub fn hour(&self) -> (hour: u8)
        ensures
            hour == self@.hour,
            self@.is_valid(),
    {
        proof {
            use_type_invariant(self);
        }
        self.hour
    }

    /// The minute, 0 to 59.
    pub fn minute(&self) -> (minute: u8)
        ensures
            minute == self@.minute,
            self@.is_valid(),
    {
        proof {
            use_type_invariant(self);
        }
        self.minute
    }

    /// The second, 0 to 59.
    pub fn second(&self) -> (second: u8)
        ensures
            second == self@.second,
            self@.is_valid(),
    {
        proof {
            use_type_invariant(self);
        }
        self.second
    }
}

impl Timestamp {
    /// Joins a date and a time of day.
    pub fn new(date: Date, time: Time) -> (r: Timestamp)
        ensures
            r@ == (TimestampView { date: date@, time: time@ }),
            r@.is_valid(),
    {
        proof {
            use_type_invariant(&date);
            use_type_invariant(&time);
        }
        Timestamp { date, time }
    }

    /// The day.
    pub fn date(&self) -> (date: Date)
        ensures
            date@ == self@.date,
    {
        self.date
    }

    /// The time of day.
    pub fn time(&self) -> (time: Time)
        ensures
            time@ == self@.time,
    {
        self.time
    }

    /// The number by which timestamps are ordered.
    pub fn ordinal(&self) -> (k: u64)
        ensures
            k == self@.ordinal(),
            self@.is_valid(),
    {
        proof {
            use_type_invariant(&self.date);
            use_type_invariant(&self.time);
        }
        let day_number: u64 = (self.date.year as u64 * 13 + self.date.month as u64) * 32
            + self.date.day as u64;
        let second_of_day: u64 = (self.time.hour as u64 * 60 + self.time.minute as u64) * 60
            + self.time.second as u64;
        day_number * 86400 + second_of_day
    }

    /// Tells whether this instant is strictly earlier than `other`.
    pub fn is_before(&self, other: &Timestamp) -> (r: bool)
        ensures
            r == (self@.ordinal() < other@.ordinal()),
            r == self@.before(other@),
    {
        let a = self.ordinal();
        let b = other.ordinal();
        proof {
            lemma_ordinal_is_chronological(self@, other@);
        }
        a < b
    }
}

/// The number that the two digits at `i` and `i + 1` spell.
pub open spec fn two_digits(s: Seq<u8>, i: int) -> int {
    digit_value(s[i]) * 10 + digit_value(s[i + 1])
}

/// The number that the four digits from `i` to `i + 3` spell.
pub open spec fn four_digits(s: Seq<u8>, i: int) -> int {
    two_digits(s, i) * 100 + two_digits(s, i + 2)
}

/// Position `i` is the end of `s` or holds something other than a digit, so
/// that a run of digits that ends before `i` is no longer than it looks.
pub open spec fn no_digit_at(s: Seq<u8>, i: int) -> bool {
    !(0 <= i < s.len() && is_digit(s[i]))
}

/// At `i` stand exactly four digits, a colon, exactly two digits, a colon and
/// exactly two digits.
pub open spec fn date_shape(s: Seq<u8>, i: int) -> bool {
    &&& 0 <= i
    &&& i + 10 <= s.len()
    &&& is_digit(s[i])
    &&& is_digit(s[i + 1])
    &&& is_digit(s[i + 2])
    &&& is_digit(s[i + 3])
    &&& s[i + 4] == COLON
    &&& is_digit(s[i + 5])
    &&& is_digit(s[i + 6])
    &&& s[i + 7] == COLON
    &&& is_digit(s[i + 8])
    &&& is_digit(s[i + 9])
    &&& no_digit_at(s, i + 10)
}

/// At `i` stand exactly two digits, a colon, exactly two digits, a colon and
/// exactly two digits.
pub open spec fn time_shape(s: Seq<u8>, i: int) -> bool {
    &&& 0 <= i
    &&& i + 8 <= s.len()
    &&& is_digit(s[i])
    &&& is_digit(s[i + 1])
    &&& s[i + 2] == COLON
    &&& is_digit(s[i + 3])
    &&& is_digit(s[i + 4])
    &&& s[i + 5] == COLON
    &&& is_digit(s[i + 6])
    &&& is_digit(s[i + 7])
    &&& no_digit_at(s, i + 8)
}

/// The date token `YYYY:MM:DD` at position `i`: malformed unless the digits
/// and colons stand as [`date_shape`] says, out of range if they do but name
/// no day of the calendar.
pub open spec fn date_at(s: Seq<u8>, i: int) -> Result<(DateView, int), ParseError> {
    if !date_shape(s, i) {
        Err(ParseError::Malformed)
    } else {
        let date = DateView {
            year: four_digits(s, i),
            month: two_digits(s, i + 5),
            day: two_digits(s, i + 8),
        };
        if date.is_valid() {
            Ok((date, i + 10))
        } else {
            Err(ParseError::OutOfRange)
        }
    }
}

/// The time token `hh:mm:ss` at position `i`: malformed unless the digits and
/// colons stand as [`time_shape`] says, out of range if they do but name no
/// time of day.
pub open spec fn time_at(s: Seq<u8>, i: int) -> Result<(TimeView, int), ParseError> {
    if !time_shape(s, i) {
        Err(ParseError::Malformed)
    } else {
        let time = TimeView {
            hour: two_digits(s, i),
            minute: two_digits(s, i + 3),
            second: two_digits(s, i + 6),
        };
        if time.is_valid() {
            Ok((time, i + 8))
        } else {
            Err(ParseError::OutOfRange)
        }
    }
}

/// The timestamp token `YYYY:MM:DD-hh:mm:ss` at position `i`: a date, a dash
/// and a time of day, read in that order; the first part that fails decides
/// the error.
pub open spec fn datetime_at(s: Seq<u8>, i: int) -> Result<(TimestampView, int), ParseError> {
    match date_at(s, i) {
        Err(e) => Err(e),
        Ok((date, dash)) => {
            if !(dash < s.len() && s[dash] == DASH) {
                Err(ParseError::Malformed)
            } else {
                match time_at(s, dash + 1) {
                    Err(e) => Err(e),
                    Ok((time, end)) => Ok((TimestampView { date, time }, end)),
                }
            }
        },
    }
}

/// The ASCII digit for a number from 0 to 9.
pub open spec fn digit_byte(n: int) -> u8 {
    (DIGIT_ZERO + n) as u8
}

/// The token that spells a date whose year has at most four digits and whose
/// month and day have at most two: `YYYY:MM:DD`.
pub open spec fn date_token(date: DateView) -> Seq<u8> {
    seq![
        digit_byte(date.year / 1000),
        digit_byte(date.year / 100 % 10),
        digit_byte(date.year / 10 % 10),
        digit_byte(date.year % 10),
        COLON,
        digit_byte(date.month / 10),
        digit_byte(date.month % 10),
        COLON,
        digit_byte(date.day / 10),
        digit_byte(date.day % 10),
    ]
}

/// The token that spells a time of day: `hh:mm:ss`.
pub open spec fn time_token(time: TimeView) -> Seq<u8> {
    seq![
        digit_byte(time.hour / 10),
        digit_byte(time.hour % 10),
        COLON,
        digit_byte(time.minute / 10),
        digit_byte(time.minute % 10),
        COLON,
        digit_byte(time.second / 10),
        digit_byte(time.second % 10),
    ]
}

/// The token that spells a timestamp: `YYYY:MM:DD-hh:mm:ss`.
pub open spec fn timestamp_token(t: TimestampView) -> Seq<u8> {
    date_token(t.date) + seq![DASH] + time_token(t.time)
}

/// The numbers spelled with four, two and two digits fit the fields of a
/// date token.
pub open spec fn fits_date_token(date: DateView) -> bool {
    0 <= date.year <= 9999 && 0 <= date.month <= 99 && 0 <= date.day <= 99
}

/// The numbers spelled with two digits each fit the fields of a time token.
pub open spec fn fits_time_token(time: TimeView) -> bool {
    0 <= time.hour <= 99 && 0 <= time.minute <= 99 && 0 <= time.second <= 99
}

/// Reading the token of a date gives the date back if the day exists, and
/// fails as out of range if it does not.
pub proof fn lemma_date_round_trip(date: DateView)
    requires
        fits_date_token(date),
    ensures
        date.is_valid() ==> date_at(date_token(date), 0) == Ok::<_, ParseError>((date, 10int)),
        !date.is_valid() ==> date_at(date_token(date), 0) == Err::<(DateView, int), _>(
            ParseError::OutOfRange,
        ),
{
}

/// Reading the token of a time of day gives the time back if it exists, and
/// fails as out of range if it does not.
pub proof fn lemma_time_round_trip(time: TimeView)
    requires
        fits_time_token(time),
    ensures
        time.is_valid() ==> time_at(time_token(time), 0) == Ok::<_, ParseError>((time, 8int)),
        !time.is_valid() ==> time_at(time_token(time), 0) == Err::<(TimeView, int), _>(
            ParseError::OutOfRange,
        ),
{
}

/// Reading the token of a valid timestamp gives the timestamp back,
/// whatever follows the token, unless a digit follows it.
pub proof fn lemma_timestamp_round_trip(t: TimestampView, rest: Seq<u8>)
    requires
        t.is_valid(),
        0 <= t.date.year <= 9999,
        rest.len() == 0 || !is_digit(rest[0]),
    ensures
        datetime_at(timestamp_token(t) + rest, 0) == Ok::<_, ParseError>((t, 19int)),
{
    let s = timestamp_token(t) + rest;
    let d = date_token(t.date);
    let c = time_token(t.time);
    assert forall|k: int| 0 <= k < 10 implies s[k] == d[k] by {}
    assert(s[10] == DASH);
    assert forall|k: int| 0 <= k < 8 implies s[11 + k] == c[k] by {}
    assert(rest.len() > 0 ==> s[19] == rest[0]);
    lemma_date_round_trip(t.date);
    lemma_time_round_trip(t.time);
}

/// Every byte of `s` is a digit.
pub open spec fn all_digits(s: Seq<u8>) -> bool {
    forall|k: int| 0 <= k < s.len() ==> is_digit(s[k])
}

/// A token made of three runs of digits joined by colons is no date unless
/// the runs have exactly four, two and two digits.
pub proof fn lemma_date_digit_counts_are_exact(year: Seq<u8>, month: Seq<u8>, day: Seq<u8>)
    requires
        all_digits(year),
        all_digits(month),
        all_digits(day),
        !(year.len() == 4 && month.len() == 2 && day.len() == 2),
    ensures
        date_at(year + seq![COLON] + month + seq![COLON] + day, 0) == Err::<(DateView, int), _>(
            ParseError::Malformed,
        ),
{
    let s = year + seq![COLON] + month + seq![COLON] + day;
    let y = year.len() as int;
    let m = month.len() as int;
    assert forall|k: int| 0 <= k < y implies s[k] == year[k] by {}
    assert forall|k: int| 0 <= k < m implies s[y + 1 + k] == month[k] by {}
    assert forall|k: int| 0 <= k < day.len() implies s[y + m + 2 + k] == day[k] by {}
}

/// Reads four digits at `pos` as a number. The caller has checked them.
fn read_four(input: &[u8], pos: usize) -> (n: u16)
    requires
        pos + 4 <= input@.len(),
        is_digit(input@[pos as int]),
        is_digit(input@[pos + 1]),
        is_digit(input@[pos + 2]),
        is_digit(input@[pos + 3]),
    ensures
        n == four_digits(input@, pos as int),
{
    let a: u16 = (input[pos] - DIGIT_ZERO) as u16;
    let b: u16 = (input[pos + 1] - DIGIT_ZERO) as u16;
    let c: u16 = (input[pos + 2] - DIGIT_ZERO) as u16;
    let d: u16 = (input[pos + 3] - DIGIT_ZERO) as u16;
    (a * 10 + b) * 100 + (c * 10 + d)
}

/// Reads two digits at `pos` as a number. The caller has checked them.
fn read_two(input: &[u8], pos: usize) -> (n: u8)
    requires
        pos + 2 <= input@.len(),
        is_digit(input@[pos as int]),
        is_digit(input@[pos + 1]),
    ensures
        n == two_digits(input@, pos as int),
{
    (input[pos] - DIGIT_ZERO) * 10 + (input[pos + 1] - DIGIT_ZERO)
}

/// Tells whether `pos` is the end of the input or holds no digit.
fn no_digit(input: &[u8], pos: usize) -> (r: bool)
    ensures
        r == no_digit_at(input@, pos as int),
{
    !(pos < input.len() && digit(input[pos]))
}

/// Tells whether `count` digits stand at `pos`, within the input.
fn digits(input: &[u8], pos: usize, count: usize) -> (r: bool)
    requires
        pos + count <= input@.len(),
    ensures
        r == forall|k: int| pos <= k < pos + count ==> is_digit(input@[k]),
{
    let mut k: usize = 0;
    while k < count
        invariant
            k <= count,
            pos + count <= input.len(),
            forall|j: int| pos <= j < pos + k ==> is_digit(input@[j]),
        decreases count - k,
    {
        if !digit(input[pos + k]) {
            return false;
        }
        k += 1;
    }
    true
}

/// Parses the date token `YYYY:MM:DD` that starts at `pos`.
///
/// The digit counts are exact: a fifth digit of the year, a third of the
/// month or of the day, or a missing one, makes the token malformed. A token
/// of the right shape that names no day of the calendar (month 13, the 30th
/// of February) is out of range.
pub fn date(input: &[u8], pos: usize) -> (r: Result<(Date, usize), ParseError>)
    ensures
        parsed(r) == date_at(input@, pos as int),
{
    if pos > input.len() || input.len() - pos < 10 {
        return Err(ParseError::Malformed);
    }
    let shaped = digits(input, pos, 4) && input[pos + 4] == COLON && digits(input, pos + 5, 2)
        && input[pos + 7] == COLON && digits(input, pos + 8, 2) && no_digit(input, pos + 10);
    if !shaped {
        return Err(ParseError::Malformed);
    }
    let year = read_four(input, pos);
    let month = read_two(input, pos + 5);
    let day = read_two(input, pos + 8);
    match Date::new(year, month, day) {
        Some(date) => Ok((date, pos + 10)),
        None => Err(ParseError::OutOfRange),
    }
}

/// Parses the time token `hh:mm:ss` that starts at `pos`.
///
/// Each field has exactly two digits. A token of the right shape that names
/// no time of day (hour 24, minute or second 60) is out of range.
pub fn time(input: &[u8], pos: usize) -> (r: Result<(Time, usize), ParseError>)
    ensures
        parsed(r) == time_at(input@, pos as int),
{
    if pos > input.len() || input.len() - pos < 8 {
        return Err(ParseError::Malformed);
    }
    let shaped = digits(input, pos, 2) && input[pos + 2] == COLON && digits(input, pos + 3, 2)
        && input[pos + 5] == COLON && digits(input, pos + 6, 2) && no_digit(input, pos + 8);
    if !shaped {
        return Err(ParseError::Malformed);
    }
    let hour = read_two(input, pos);
    let minute = read_two(input, pos + 3);
    let second = read_two(input, pos + 6);
    match Time::new(hour, minute, second) {
        Some(time) => Ok((time, pos + 8)),
        None => Err(ParseError::OutOfRange),
    }
}

/// Parses the timestamp token `YYYY:MM:DD-hh:mm:ss` that starts at `pos`.
pub fn datetime(input: &[u8], pos: usize) -> (r: Result<(Timestamp, usize), ParseError>)
    ensures
        parsed(r) == datetime_at(input@, pos as int),
{
    let (date, dash) = match date(input, pos) {
        Ok(found) => found,
        Err(e) => {
            return Err(e);
        },
    };
    if !(dash < input.len() && input[dash] == DASH) {
        return Err(ParseError::Malformed);
    }
    match time(input, dash + 1) {
        Ok((time, end)) => Ok((Timestamp::new(date, time), end)),
        Err(e) => Err(e),
    }
}

/// A day that exists and that `chrono` can hold: its years go from -262143
/// to 262142.
pub open spec fn is_chrono_date(year: int, month: int, day: int) -> bool {
    -262143 <= year <= 262142 && is_calendar_date(year, month, day)
}

/// The dates of `chrono`; nothing is read from one.
#[verifier::external_type_specification]
#[verifier::external_body]
pub struct ExNaiveDate(chrono::NaiveDate);

/// The times of day of `chrono`; nothing is read from one.
#[verifier::external_type_specification]
#[verifier::external_body]
pub struct ExNaiveTime(chrono::NaiveTime);

/// `chrono::NaiveDate::from_ymd_opt` returns a date exactly when the year is
/// one that `chrono` can hold (see [`is_chrono_date`]), the month is 1 to 12
/// and the day exists in that month of that year.
pub assume_specification[ chrono::NaiveDate::from_ymd_opt ](
    year: i32,
    month: u32,
    day: u32,
) -> (r: Option<chrono::NaiveDate>)
    ensures
        r is Some <==> is_chrono_date(year as int, month as int, day as int),
;

/// `chrono::NaiveTime::from_hms_opt` returns a time exactly when the hour is
/// below 24 and the minute and the second are below 60.
pub assume_specification[ chrono::NaiveTime::from_hms_opt ](
    hour: u32,
    min: u32,
    sec: u32,
) -> (r: Option<chrono::NaiveTime>)
    ensures
        r is Some <==> is_clock_time(hour as int, min as int, sec as int),
;

} // verus!
