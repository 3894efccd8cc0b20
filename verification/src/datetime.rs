//! Calendar dates, times of day and `DTSTART`/`DTEND` values.
use vstd::prelude::*;
use crate::text::{
    chars_of, push_char, push_padded, format_padded, is_digit, digit_value, digit_char, decimal_digits, index_of,
    lemma_index_of_at, eq_ignore_ascii_case, chars_eq_ignore_ascii_case,
};
use crate::property::{Property, PropertyView, param_views};

verus! {

/// A calendar date (Gregorian), with no time or timezone attached.
#[derive(Debug, Clone, Copy, PartialEq, Eq)]
pub struct Date {
    pub year: i32,
    pub month: u32,
    pub day: u32,
}

/// A time of day, with no timezone attached (see `TimeKind` for that).
#[derive(Debug, Clone, Copy, PartialEq, Eq)]
pub struct Time {
    pub hour: u32,
    pub minute: u32,
    pub second: u32,
}

/// All characters of `s` are ASCII digits.
pub open spec fn all_digits(s: Seq<char>) -> bool {
    forall|i: int| 0 <= i < s.len() ==> is_digit(#[trigger] s[i])
}

/// The two-digit number written at `s[i..i + 2]`.
pub open spec fn two_digits(s: Seq<char>, i: int) -> int {
    10 * digit_value(s[i]) + digit_value(s[i + 1])
}

/// The four-digit number written at `s[i..i + 4]`.
pub open spec fn four_digits(s: Seq<char>, i: int) -> int {
    100 * two_digits(s, i) + two_digits(s, i + 2)
}

/// `year` is a Gregorian leap year.
pub open spec fn is_leap_year(year: int) -> bool {
    (year % 4 == 0 && year % 100 != 0) || year % 400 == 0
}

/// The number of days of `month` (1..=12) in `year`.
pub open spec fn days_in_month(year: int, month: int) -> int {
    if month == 2 {
        if is_leap_year(year) { 29 } else { 28 }
    } else if month == 4 || month == 6 || month == 9 || month == 11 {
        30
    } else {
        31
    }
}

/// A date written `YYYYMMDD`: eight digits, naming a month in 1..=12 and a
/// day that the month has in that Gregorian year.
pub open spec fn spec_parse_date(s: Seq<char>) -> Option<Date> {
    if s.len() == 8 && all_digits(s) && 1 <= two_digits(s, 4) <= 12 && 1 <= two_digits(s, 6)
        <= days_in_month(four_digits(s, 0), two_digits(s, 4)) {
        Some(
            Date {
                year: four_digits(s, 0) as i32,
                month: two_digits(s, 4) as u32,
                day: two_digits(s, 6) as u32,
            },
        )
    } else {
        None
    }
}

/// A time written `HHMMSS`: six digits, with an hour up to 23, a minute up
/// to 59 and a second up to 60 (a leap second, RFC 5545 section 3.3.12).
pub open spec fn spec_parse_time(s: Seq<char>) -> Option<Time> {
    if s.len() == 6 && all_digits(s) && two_digits(s, 0) <= 23 && two_digits(s, 2) <= 59
        && two_digits(s, 4) <= 60 {
        Some(
            Time {
                hour: two_digits(s, 0) as u32,
                minute: two_digits(s, 2) as u32,
                second: two_digits(s, 4) as u32,
            },
        )
    } else {
        None
    }
}

/// `v[from..to]` holds only digits.
fn range_all_digits(v: &Vec<char>, from: usize, to: usize) -> (r: bool)
    requires
        from <= to <= v.len(),
    ensures
        r == all_digits(v@.subrange(from as int, to as int)),
{
    let mut i = from;
    while i < to
        invariant
            from <= i <= to <= v.len(),
            forall|j: int| from <= j < i ==> is_digit(#[trigger] v@[j]),
        decreases to - i,
    {
        if !('0' <= v[i] && v[i] <= '9') {
            assert(v@.subrange(from as int, to as int)[i - from] == v@[i as int]);
            return false;
        }
        i += 1;
    }
    assert forall|k: int| 0 <= k < to - from implies is_digit(#[trigger] v@.subrange(from as int, to as int)[k]) by {
        assert(v@.subrange(from as int, to as int)[k] == v@[from + k]);
    }
    true
}

/// The two-digit number at `v[i..i + 2]`.
fn two_digits_at(v: &Vec<char>, i: usize) -> (n: u32)
    requires
        i + 2 <= v.len(),
        is_digit(v@[i as int]),
        is_digit(v@[i + 1]),
    ensures
        n == two_digits(v@, i as int),
        n < 100,
{
    let a = (v[i] as u32) - ('0' as u32);
    let b = (v[i + 1] as u32) - ('0' as u32);
    10 * a + b
}

impl Date {
    /// Reads a `YYYYMMDD` date.
    pub fn parse(s: &str) -> (r: Option<Date>)
        ensures
            r == spec_parse_date(s@),
    {
        let v = chars_of(s);
        assert(v@.subrange(0, v@.len() as int) =~= v@);
        parse_date_range(&v, 0, v.len())
    }

    /// The date as `YYYY-MM-DD`, each field zero-padded.
    pub open spec fn spec_to_string(self) -> Seq<char> {
        format_padded(self.year as int, 4) + seq!['-'] + format_padded(self.month as int, 2) + seq!['-']
            + format_padded(self.day as int, 2)
    }

    /// The date as `YYYY-MM-DD`, each field zero-padded.
    pub fn to_string(&self) -> (s: String)
        ensures
            s@ == self.spec_to_string(),
    {
        let mut s = String::new();
        push_date(&mut s, self);
        assert(s@ =~= self.spec_to_string());
        s
    }
}

/// Appends `d` as `YYYY-MM-DD`.
fn push_date(s: &mut String, d: &Date)
    ensures
        final(s)@ == old(s)@ + d.spec_to_string(),
{
    push_padded(s, d.year as i64, 4);
    push_char(s, '-');
    push_padded(s, d.month as i64, 2);
    push_char(s, '-');
    push_padded(s, d.day as i64, 2);
    assert(final(s)@ =~= old(s)@ + d.spec_to_string());
}

/// `days_in_month`, computed.
fn month_length(year: u32, month: u32) -> (n: u32)
    ensures
        n == days_in_month(year as int, month as int),
{
    if month == 2 {
        if (year % 4 == 0 && year % 100 != 0) || year % 400 == 0 {
            29
        } else {
            28
        }
    } else if month == 4 || month == 6 || month == 9 || month == 11 {
        30
    } else {
        31
    }
}

/// `spec_parse_date` of `v[from..to]`.
fn parse_date_range(v: &Vec<char>, from: usize, to: usize) -> (r: Option<Date>)
    requires
        from <= to <= v.len(),
    ensures
        r == spec_parse_date(v@.subrange(from as int, to as int)),
{
    let ghost s = v@.subrange(from as int, to as int);
    if to - from != 8 || !range_all_digits(v, from, to) {
        return None;
    }
    proof {
        assert forall|k: int| from <= k < to implies is_digit(#[trigger] v@[k]) by {
            assert(s[k - from] == v@[k]);
        }
        assert(two_digits(s, 0) == two_digits(v@, from as int));
        assert(two_digits(s, 2) == two_digits(v@, from + 2));
        assert(two_digits(s, 4) == two_digits(v@, from + 4));
        assert(two_digits(s, 6) == two_digits(v@, from + 6));
    }
    let year = 100 * two_digits_at(v, from) + two_digits_at(v, from + 2);
    let month = two_digits_at(v, from + 4);
    let day = two_digits_at(v, from + 6);
    if month < 1 || month > 12 || day < 1 || day > month_length(year, month) {
        return None;
    }
    Some(Date { year: year as i32, month, day })
}

impl Time {
    /// Reads an `HHMMSS` time.
    pub fn parse(s: &str) -> (r: Option<Time>)
        ensures
            r == spec_parse_time(s@),
    {
        let v = chars_of(s);
        assert(v@.subrange(0, v@.len() as int) =~= v@);
        parse_time_range(&v, 0, v.len())
    }

    /// The time as `HH:MM:SS`, each field zero-padded.
    pub open spec fn spec_to_string(self) -> Seq<char> {
        format_padded(self.hour as int, 2) + seq![':'] + format_padded(self.minute as int, 2) + seq![':']
            + format_padded(self.second as int, 2)
    }

    /// The time as `HH:MM:SS`, each field zero-padded.
    pub fn to_string(&self) -> (s: String)
        ensures
            s@ == self.spec_to_string(),
    {
        let mut s = String::new();
        push_time(&mut s, self);
        assert(s@ =~= self.spec_to_string());
        s
    }
}

/// Appends `t` as `HH:MM:SS`.
fn push_time(s: &mut String, t: &Time)
    ensures
        final(s)@ == old(s)@ + t.spec_to_string(),
{
    push_padded(s, t.hour as i64, 2);
    push_char(s, ':');
    push_padded(s, t.minute as i64, 2);
    push_char(s, ':');
    push_padded(s, t.second as i64, 2);
    assert(final(s)@ =~= old(s)@ + t.spec_to_string());
}

/// `spec_parse_time` of `v[from..to]`.
fn parse_time_range(v: &Vec<char>, from: usize, to: usize) -> (r: Option<Time>)
    requires
        from <= to <= v.len(),
    ensures
        r == spec_parse_time(v@.subrange(from as int, to as int)),
{
    let ghost s = v@.subrange(from as int, to as int);
    if to - from != 6 || !range_all_digits(v, from, to) {
        return None;
    }
    proof {
        assert forall|k: int| from <= k < to implies is_digit(#[trigger] v@[k]) by {
            assert(s[k - from] == v@[k]);
        }
        assert(two_digits(s, 0) == two_digits(v@, from as int));
        assert(two_digits(s, 2) == two_digits(v@, from + 2));
        assert(two_digits(s, 4) == two_digits(v@, from + 4));
    }
    let hour = two_digits_at(v, from);
    let minute = two_digits_at(v, from + 2);
    let second = two_digits_at(v, from + 4);
    if hour > 23 || minute > 59 || second > 60 {
        return None;
    }
    Some(Time { hour, minute, second })
}

/// How a date-time's timezone was specified in the source property.
#[derive(Debug, Clone, PartialEq, Eq)]
pub enum TimeKind {
    /// No `Z` suffix and no `TZID`: local to whatever reads it back.
    Floating,
    /// Trailing `Z` on the value.
    Utc,
    /// `TZID` parameter naming a timezone; not resolved to an offset here.
    Zone(String),
}

/// What a `TimeKind` holds, as characters.
pub enum TimeKindView {
    Floating,
    Utc,
    Zone(Seq<char>),
}

impl View for TimeKind {
    type V = TimeKindView;

    open spec fn view(&self) -> TimeKindView {
        match self {
            TimeKind::Floating => TimeKindView::Floating,
            TimeKind::Utc => TimeKindView::Utc,
            TimeKind::Zone(tz) => TimeKindView::Zone(tz@),
        }
    }
}

/// A parsed `DTSTART`/`DTEND` value: either a bare date (`VALUE=DATE`)
/// or a date paired with a time and its timezone kind.
#[derive(Debug, Clone, PartialEq, Eq)]
pub enum DateTimeValue {
    Date(Date),
    DateTime { date: Date, time: Time, kind: TimeKind },
}

/// What a `DateTimeValue` holds, as characters.
pub enum DateTimeView {
    Date(Date),
    DateTime { date: Date, time: Time, kind: TimeKindView },
}

impl View for DateTimeValue {
    type V = DateTimeView;

    open spec fn view(&self) -> DateTimeView {
        match self {
            DateTimeValue::Date(d) => DateTimeView::Date(*d),
            DateTimeValue::DateTime { date, time, kind } => DateTimeView::DateTime {
                date: *date,
                time: *time,
                kind: kind@,
            },
        }
    }
}

impl DateTimeView {
    /// The text form: `YYYY-MM-DD` for a date; for a date-time the date, a
    /// space and `HH:MM:SS`, then ` UTC` or a space and the zone's name when
    /// it has one.
    pub open spec fn spec_to_string(self) -> Seq<char> {
        match self {
            DateTimeView::Date(d) => d.spec_to_string(),
            DateTimeView::DateTime { date, time, kind } => {
                let base = date.spec_to_string() + seq![' '] + time.spec_to_string();
                match kind {
                    TimeKindView::Floating => base,
                    TimeKindView::Utc => base + seq![' ', 'U', 'T', 'C'],
                    TimeKindView::Zone(tz) => base + seq![' '] + tz,
                }
            },
        }
    }
}

impl DateTimeValue {
    /// The text form: `YYYY-MM-DD` for a date; for a date-time the date, a
    /// space and `HH:MM:SS`, then ` UTC` or a space and the zone's name when
    /// it has one.
    pub fn to_string(&self) -> (s: String)
        ensures
            s@ == self@.spec_to_string(),
    {
        let mut s = String::new();
        match self {
            DateTimeValue::Date(d) => {
                push_date(&mut s, d);
            },
            DateTimeValue::DateTime { date, time, kind } => {
                push_date(&mut s, date);
                push_char(&mut s, ' ');
                push_time(&mut s, time);
                match kind {
                    TimeKind::Floating => {},
                    TimeKind::Utc => {
                        push_char(&mut s, ' ');
                        push_char(&mut s, 'U');
                        push_char(&mut s, 'T');
                        push_char(&mut s, 'C');
                    },
                    TimeKind::Zone(tz) => {
                        push_char(&mut s, ' ');
                        s.append(tz.as_str());
                    },
                }
            },
        }
        assert(s@ =~= self@.spec_to_string());
        s
    }
}

/// The value of the first parameter whose name is `key` up to ASCII case.
pub open spec fn find_param(params: Seq<(Seq<char>, Seq<char>)>, key: Seq<char>) -> Option<Seq<char>>
    decreases params.len(),
{
    if params.len() == 0 {
        None
    } else if eq_ignore_ascii_case(params[0].0, key) {
        Some(params[0].1)
    } else {
        find_param(params.drop_first(), key)
    }
}

/// `find_param` finds the first parameter named `key` up to ASCII case,
/// wherever it stands, and nothing when no parameter has that name.
pub proof fn law_find_param_first_match(params: Seq<(Seq<char>, Seq<char>)>, key: Seq<char>, i: int)
    requires
        0 <= i < params.len(),
        eq_ignore_ascii_case(params[i].0, key),
        forall|j: int| 0 <= j < i ==> !eq_ignore_ascii_case(#[trigger] params[j].0, key),
    ensures
        find_param(params, key) == Some(params[i].1),
    decreases i,
{
    if i > 0 {
        let rest = params.drop_first();
        assert forall|j: int| 0 <= j < i - 1 implies !eq_ignore_ascii_case(#[trigger] rest[j].0, key) by {
            assert(rest[j] == params[j + 1]);
        }
        assert(!eq_ignore_ascii_case(params[0].0, key));
        law_find_param_first_match(rest, key, i - 1);
    }
}

/// Without a parameter named `key`, up to ASCII case, `find_param` finds
/// nothing.
pub proof fn law_find_param_none(params: Seq<(Seq<char>, Seq<char>)>, key: Seq<char>)
    requires
        forall|j: int| 0 <= j < params.len() ==> !eq_ignore_ascii_case(#[trigger] params[j].0, key),
    ensures
        (find_param(params, key) is None),
    decreases params.len(),
{
    if params.len() > 0 {
        let rest = params.drop_first();
        assert forall|j: int| 0 <= j < rest.len() implies !eq_ignore_ascii_case(#[trigger] rest[j].0, key) by {
            assert(rest[j] == params[j + 1]);
        }
        assert(!eq_ignore_ascii_case(params[0].0, key));
        law_find_param_none(rest, key);
    }
}

/// The parameter name `VALUE`.
pub open spec fn value_key() -> Seq<char> {
    seq!['V', 'A', 'L', 'U', 'E']
}

/// The value type `DATE`.
pub open spec fn date_type() -> Seq<char> {
    seq!['D', 'A', 'T', 'E']
}

/// The parameter name `TZID`.
pub open spec fn tzid_key() -> Seq<char> {
    seq!['T', 'Z', 'I', 'D']
}

/// Some parameter says `VALUE=DATE`, both up to ASCII case.
pub open spec fn says_value_date(params: Seq<(Seq<char>, Seq<char>)>) -> bool {
    exists|i: int|
        0 <= i < params.len() && eq_ignore_ascii_case(#[trigger] params[i].0, value_key())
            && eq_ignore_ascii_case(params[i].1, date_type())
}

/// A `DTSTART`/`DTEND`-shaped property read as a date or a date-time.
///
/// A `VALUE=DATE` parameter, or a value without `T`, makes it a bare date.
/// Otherwise the value splits at its first `T` into a date and a time; a
/// trailing `Z` on the time means UTC, else the first `TZID` parameter names
/// the zone, else the time is floating.
pub open spec fn spec_parse_date_time(p: PropertyView) -> Option<DateTimeView> {
    let t = index_of(p.value, 'T');
    if says_value_date(p.params) || t == p.value.len() {
        match spec_parse_date(p.value) {
            Some(d) => Some(DateTimeView::Date(d)),
            None => None,
        }
    } else {
        let time_part = p.value.skip(t + 1);
        let is_utc = time_part.len() > 0 && time_part.last() == 'Z';
        let time_digits = if is_utc { time_part.drop_last() } else { time_part };
        match (spec_parse_date(p.value.take(t)), spec_parse_time(time_digits)) {
            (Some(date), Some(time)) => Some(
                DateTimeView::DateTime {
                    date,
                    time,
                    kind: if is_utc {
                        TimeKindView::Utc
                    } else {
                        match find_param(p.params, tzid_key()) {
                            Some(tz) => TimeKindView::Zone(tz),
                            None => TimeKindView::Floating,
                        }
                    },
                },
            ),
            _ => None,
        }
    }
}

/// The view of an optional date-time value.
pub open spec fn option_view(v: Option<DateTimeValue>) -> Option<DateTimeView> {
    match v {
        Some(v) => Some(v@),
        None => None,
    }
}

/// Parses a `DTSTART`/`DTEND`-shaped property into a `DateTimeValue`.
///
/// Honors an explicit `VALUE=DATE` parameter; failing that, the shape of
/// the value decides (no `T` means a bare date). A trailing `Z` on the
/// value means UTC; otherwise a `TZID` parameter names the timezone;
/// otherwise the time is floating (RFC 5545 section 3.3.5).
pub fn parse_date_time(prop: &Property) -> (r: Option<DateTimeValue>)
    ensures
        option_view(r) == spec_parse_date_time(prop@),
{
    let value_is_date = has_value_date(&prop.params);
    let v = chars_of(prop.value.as_str());
    let n = v.len();
    let mut t: usize = 0;
    while t < n && v[t] != 'T'
        invariant
            n == v.len(),
            t <= n,
            forall|j: int| 0 <= j < t ==> #[trigger] v@[j] != 'T',
        decreases n - t,
    {
        t += 1;
    }
    proof {
        lemma_index_of_at(v@, 'T', t as int);
    }
    if value_is_date || t == n {
        assert(v@.subrange(0, n as int) =~= v@);
        return match parse_date_range(&v, 0, n) {
            Some(d) => Some(DateTimeValue::Date(d)),
            None => None,
        };
    }
    let ghost time_part = v@.skip(t + 1);
    let is_utc = n > t + 1 && v[n - 1] == 'Z';
    let time_end = if is_utc { n - 1 } else { n };
    proof {
        assert(v@.take(t as int) =~= v@.subrange(0, t as int));
        if is_utc {
            assert(time_part.drop_last() =~= v@.subrange(t + 1, time_end as int));
        } else {
            assert(time_part =~= v@.subrange(t + 1, time_end as int));
        }
    }
    let date = match parse_date_range(&v, 0, t) {
        Some(d) => d,
        None => return None,
    };
    let time = match parse_time_range(&v, t + 1, time_end) {
        Some(tm) => tm,
        None => return None,
    };
    let kind = if is_utc {
        TimeKind::Utc
    } else {
        match find_tzid(&prop.params) {
            Some(tz) => TimeKind::Zone(tz),
            None => TimeKind::Floating,
        }
    };
    Some(DateTimeValue::DateTime { date, time, kind })
}

/// Whether some parameter says `VALUE=DATE`, up to ASCII case.
fn has_value_date(params: &Vec<(String, String)>) -> (r: bool)
    ensures
        r == says_value_date(param_views(params@)),
{
    let value_kw: [char; 5] = ['V', 'A', 'L', 'U', 'E'];
    let date_kw: [char; 4] = ['D', 'A', 'T', 'E'];
    let ghost pv = param_views(params@);
    let mut i: usize = 0;
    while i < params.len()
        invariant
            i <= params.len(),
            pv == param_views(params@),
            value_kw@ == value_key(),
            date_kw@ == date_type(),
            forall|j: int|
                0 <= j < i ==> !(eq_ignore_ascii_case(#[trigger] pv[j].0, value_key())
                    && eq_ignore_ascii_case(pv[j].1, date_type())),
        decreases params.len() - i,
    {
        let k = chars_of(params[i].0.as_str());
        let val = chars_of(params[i].1.as_str());
        if chars_eq_ignore_ascii_case(&k, &value_kw) && chars_eq_ignore_ascii_case(&val, &date_kw) {
            assert(pv[i as int].0 == k@);
            return true;
        }
        i += 1;
    }
    false
}

/// The value of the first `TZID` parameter, up to ASCII case.
fn find_tzid(params: &Vec<(String, String)>) -> (r: Option<String>)
    ensures
        r matches Some(s) ==> find_param(param_views(params@), tzid_key()) == Some(s@),
        r is None ==> find_param(param_views(params@), tzid_key()) is None,
{
    let tzid_kw: [char; 4] = ['T', 'Z', 'I', 'D'];
    let ghost pv = param_views(params@);
    let mut i: usize = 0;
    assert(pv.skip(0) =~= pv);
    while i < params.len()
        invariant
            i <= params.len(),
            pv == param_views(params@),
            tzid_kw@ == tzid_key(),
            find_param(pv.skip(i as int), tzid_key()) == find_param(pv, tzid_key()),
        decreases params.len() - i,
    {
        let k = chars_of(params[i].0.as_str());
        proof {
            assert(pv.skip(i as int)[0] == pv[i as int]);
            assert(pv.skip(i as int).drop_first() =~= pv.skip(i + 1));
        }
        if chars_eq_ignore_ascii_case(&k, &tzid_kw) {
            return Some(params[i].1.clone());
        }
        i += 1;
    }
    None
}

/// A digit character reads back as its digit.
proof fn lemma_digit_roundtrip(d: int)
    requires
        0 <= d < 10,
    ensures
        is_digit(digit_char(d)),
        digit_value(digit_char(d)) == d,
{
}

/// Two-digit zero-padded decimal form of a number below 100.
proof fn lemma_padded_two(n: int)
    requires
        0 <= n < 100,
    ensures
        format_padded(n, 2) == seq![digit_char(n / 10), digit_char(n % 10)],
{
    reveal_with_fuel(decimal_digits, 3);
    if n < 10 {
        assert(format_padded(n, 2) =~= seq![digit_char(n / 10), digit_char(n % 10)]);
    } else {
        assert(decimal_digits(n as nat) =~= seq![digit_char(n / 10), digit_char(n % 10)]);
    }
}

/// Four-digit zero-padded decimal form of a number below 10000.
proof fn lemma_padded_four(n: int)
    requires
        0 <= n < 10000,
    ensures
        format_padded(n, 4) == seq![
            digit_char(n / 1000),
            digit_char(n / 100 % 10),
            digit_char(n / 10 % 10),
            digit_char(n % 10),
        ],
{
    reveal_with_fuel(decimal_digits, 5);
    let want = seq![digit_char(n / 1000), digit_char(n / 100 % 10), digit_char(n / 10 % 10), digit_char(n % 10)];
    if n < 10 {
        assert(format_padded(n, 4) =~= want);
    } else if n < 100 {
        assert(decimal_digits(n as nat) =~= seq![digit_char(n / 10), digit_char(n % 10)]);
        assert(format_padded(n, 4) =~= want);
    } else if n < 1000 {
        assert(decimal_digits((n / 10) as nat) =~= seq![digit_char(n / 100), digit_char(n / 10 % 10)]);
        assert(decimal_digits(n as nat) =~= seq![digit_char(n / 100), digit_char(n / 10 % 10), digit_char(n % 10)]);
        assert(format_padded(n, 4) =~= want);
    } else {
        assert(decimal_digits((n / 100) as nat) =~= seq![digit_char(n / 1000), digit_char(n / 100 % 10)]);
        assert(decimal_digits((n / 10) as nat) =~= seq![digit_char(n / 1000), digit_char(n / 100 % 10), digit_char(n / 10 % 10)]);
        assert(decimal_digits(n as nat) =~= want);
    }
}

/// A date as iCalendar writes it: `YYYYMMDD`.
pub open spec fn written_date(d: Date) -> Seq<char> {
    format_padded(d.year as int, 4) + format_padded(d.month as int, 2) + format_padded(d.day as int, 2)
}

/// A time as iCalendar writes it: `HHMMSS`.
pub open spec fn written_time(t: Time) -> Seq<char> {
    format_padded(t.hour as int, 2) + format_padded(t.minute as int, 2) + format_padded(t.second as int, 2)
}

/// A Gregorian date that `YYYYMMDD` can hold: parsing accepts exactly these.
pub open spec fn valid_date(d: Date) -> bool {
    0 <= d.year <= 9999 && 1 <= d.month <= 12 && 1 <= d.day <= days_in_month(d.year as int, d.month as int)
}

/// A time that `HHMMSS` can hold and parsing accepts.
pub open spec fn valid_time(t: Time) -> bool {
    t.hour <= 23 && t.minute <= 59 && t.second <= 60
}

/// Every date that parsing gives is valid.
pub proof fn law_parsed_date_is_valid(s: Seq<char>)
    ensures
        spec_parse_date(s) matches Some(d) ==> valid_date(d),
{
    if spec_parse_date(s) is Some {
        assert forall|i: int| 0 <= i < 8 implies 0 <= digit_value(#[trigger] s[i]) <= 9 by {
            assert(is_digit(s[i]));
        }
    }
}

/// Every time that parsing gives is valid.
pub proof fn law_parsed_time_is_valid(s: Seq<char>)
    ensures
        spec_parse_time(s) matches Some(t) ==> valid_time(t),
{
    if spec_parse_time(s) is Some {
        assert forall|i: int| 0 <= i < 6 implies 0 <= digit_value(#[trigger] s[i]) <= 9 by {
            assert(is_digit(s[i]));
        }
    }
}

/// The digits of a written date read back as its fields.
proof fn lemma_written_date_digits(d: Date)
    requires
        0 <= d.year <= 9999,
        d.month < 100,
        d.day < 100,
    ensures
        written_date(d).len() == 8,
        all_digits(written_date(d)),
        four_digits(written_date(d), 0) == d.year,
        two_digits(written_date(d), 4) == d.month,
        two_digits(written_date(d), 6) == d.day,
{
    let y = d.year as int;
    let m = d.month as int;
    let day = d.day as int;
    lemma_padded_four(y);
    lemma_padded_two(m);
    lemma_padded_two(day);
    let s = written_date(d);
    lemma_digit_roundtrip(y / 1000);
    lemma_digit_roundtrip(y / 100 % 10);
    lemma_digit_roundtrip(y / 10 % 10);
    lemma_digit_roundtrip(y % 10);
    lemma_digit_roundtrip(m / 10);
    lemma_digit_roundtrip(m % 10);
    lemma_digit_roundtrip(day / 10);
    lemma_digit_roundtrip(day % 10);
    assert(s =~= seq![
        digit_char(y / 1000), digit_char(y / 100 % 10), digit_char(y / 10 % 10), digit_char(y % 10),
        digit_char(m / 10), digit_char(m % 10), digit_char(day / 10), digit_char(day % 10),
    ]);
}

/// Parsing a written valid date gives the date back.
pub proof fn law_parse_date_reads_written(d: Date)
    requires
        valid_date(d),
    ensures
        spec_parse_date(written_date(d)) == Some(d),
{
    lemma_written_date_digits(d);
}

/// Which days a month has, as parsing sees them: every month has days 1 to
/// 28; January, March, May, July, August, October and December have 31 days;
/// April, June, September and November have 30; February has 29 exactly in
/// the years divisible by 4 but not by 100, or by 400, and otherwise 28; no
/// month has a day 0 or a day beyond 31.
pub proof fn law_parse_date_month_lengths(year: i32, month: u32, day: u32)
    requires
        0 <= year <= 9999,
        1 <= month <= 12,
        day < 100,
    ensures
        1 <= day <= 28 ==> accepts_written_date(year, month, day),
        day == 29 ==> (accepts_written_date(year, month, day) <==> (month != 2 || (year % 4 == 0
            && year % 100 != 0) || year % 400 == 0)),
        day == 30 ==> (accepts_written_date(year, month, day) <==> month != 2),
        day == 31 ==> (accepts_written_date(year, month, day) <==> (month == 1 || month == 3 || month == 5
            || month == 7 || month == 8 || month == 10 || month == 12)),
        (day == 0 || day > 31) ==> !accepts_written_date(year, month, day),
        accepts_written_date(year, month, day) ==> (spec_parse_date(written_date(Date { year, month, day }))
            == Some(Date { year, month, day })),
{
    lemma_written_date_digits(Date { year, month, day });
}

/// Parsing accepts the date `year`-`month`-`day` written as `YYYYMMDD`.
pub open spec fn accepts_written_date(year: i32, month: u32, day: u32) -> bool {
    spec_parse_date(written_date(Date { year, month, day })) is Some
}

/// Parsing a written valid time gives the time back.
pub proof fn law_parse_time_reads_written(t: Time)
    requires
        valid_time(t),
    ensures
        spec_parse_time(written_time(t)) == Some(t),
{
    let h = t.hour as int;
    let m = t.minute as int;
    let sec = t.second as int;
    lemma_padded_two(h);
    lemma_padded_two(m);
    lemma_padded_two(sec);
    let s = written_time(t);
    lemma_digit_roundtrip(h / 10);
    lemma_digit_roundtrip(h % 10);
    lemma_digit_roundtrip(m / 10);
    lemma_digit_roundtrip(m % 10);
    lemma_digit_roundtrip(sec / 10);
    lemma_digit_roundtrip(sec % 10);
    assert(s =~= seq![
        digit_char(h / 10), digit_char(h % 10), digit_char(m / 10), digit_char(m % 10),
        digit_char(sec / 10), digit_char(sec % 10),
    ]);
    assert(all_digits(s));
    assert(two_digits(s, 0) == h);
    assert(two_digits(s, 2) == m);
    assert(two_digits(s, 4) == sec);
}

/// A date-time value as iCalendar writes it: `YYYYMMDDTHHMMSS`, with a
/// trailing `Z` for UTC.
pub open spec fn written_date_time(d: Date, t: Time, utc: bool) -> Seq<char> {
    written_date(d) + seq!['T'] + written_time(t) + if utc { seq!['Z'] } else { seq![] }
}

/// The timezone kind that the parameters give a date-time without `Z`.
pub open spec fn zone_from_params(params: Seq<(Seq<char>, Seq<char>)>) -> TimeKindView {
    match find_param(params, tzid_key()) {
        Some(tz) => TimeKindView::Zone(tz),
        None => TimeKindView::Floating,
    }
}

/// A property whose value is a written valid date-time, and that does not
/// say `VALUE=DATE`, reads back as that date-time: UTC when written with `Z`,
/// else in the zone that its first `TZID` parameter names, else floating.
pub proof fn law_parse_date_time_reads_written(
    name: Seq<char>,
    params: Seq<(Seq<char>, Seq<char>)>,
    d: Date,
    t: Time,
    utc: bool,
)
    requires
        valid_date(d),
        valid_time(t),
        !says_value_date(params),
    ensures
        spec_parse_date_time(PropertyView { name, params, value: written_date_time(d, t, utc) })
            == Some(DateTimeView::DateTime {
                date: d,
                time: t,
                kind: if utc { TimeKindView::Utc } else { zone_from_params(params) },
            }),
{
    law_parse_date_reads_written(d);
    law_parse_time_reads_written(t);
    let wd = written_date(d);
    let wt = written_time(t);
    let v = written_date_time(d, t, utc);
    assert(wd.len() == 8 && all_digits(wd));
    assert(wt.len() == 6 && all_digits(wt));
    assert forall|j: int| 0 <= j < 8 implies #[trigger] v[j] != 'T' by {
        assert(v[j] == wd[j]);
        assert(is_digit(wd[j]));
    }
    assert(v[8] == 'T');
    lemma_index_of_at(v, 'T', 8);
    assert(v.take(8) =~= wd);
    let time_part = v.skip(9);
    if utc {
        assert(time_part =~= wt + seq!['Z']);
        assert(time_part.drop_last() =~= wt);
    } else {
        assert(time_part =~= wt);
        assert(is_digit(wt[5]));
    }
}

/// An explicit `VALUE=DATE` parameter always gives a bare date, or nothing.
pub proof fn law_value_date_gives_bare_date(p: PropertyView)
    requires
        says_value_date(p.params),
    ensures
        spec_parse_date_time(p) matches Some(v) ==> v is Date,
        spec_parse_date_time(p) matches Some(DateTimeView::Date(d)) ==> spec_parse_date(p.value) == Some(d),
{
}

} // verus!
