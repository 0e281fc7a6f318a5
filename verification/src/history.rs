//! The time window of one day of room-temperature history, computed with `chrono` in
//! Japan Standard Time (UTC+9).
use vstd::prelude::*;
use chrono::{DateTime, FixedOffset, TimeDelta, TimeZone};
use crate::calendar::{
    day_number, is_civil_time, is_date, lemma_day_number_injective, lemma_day_number_ordered,
    lemma_next_date, midnight, next_date, civil_seconds, CivilTime,
};
use crate::db::Date;
use crate::text::{datetime_pattern, datetime_text};

verus! {

#[verifier::external_type_specification]
#[verifier::external_body]
pub struct ExFixedOffset(chrono::FixedOffset);

/// A `chrono::DateTime<FixedOffset>`. Verus cannot be told of `chrono::DateTime` itself,
/// since its type parameter is bound by the `chrono::TimeZone` trait, so the value is held
/// here out of Verus's sight; `ZonedTime` carries what it denotes.
#[verifier::external_body]
struct ChronoTime {
    time: DateTime<FixedOffset>,
}

#[verifier::external_type_specification]
#[verifier::external_body]
pub struct ExTimeDelta(chrono::TimeDelta);

/// The first year `chrono` dates reach.
pub open spec fn min_year() -> int {
    -262_143
}

/// The last year `chrono` dates reach.
pub open spec fn max_year() -> int {
    262_142
}

/// `chrono` holds a point in time when its UTC date lies between the first of January
/// of its first year and the 31st of December of its last year.
pub open spec fn utc_in_range(utc_seconds: int) -> bool {
    day_number(min_year(), 1, 1) * 86400 <= utc_seconds < (day_number(max_year(), 12, 31) + 1) * 86400
}

/// A time zone at a fixed distance from UTC.
struct ZoneOffset {
    offset: FixedOffset,
    secs: Ghost<int>,
}

/// A point in time in a fixed time zone, to the whole second, with its local date and time.
struct ZonedTime {
    time: ChronoTime,
    local: Ghost<CivilTime>,
    offset: Ghost<int>,
}

/// A number of whole days.
struct DaySpan {
    delta: TimeDelta,
    days: Ghost<int>,
}

impl ZonedTime {
    spec fn wf(&self) -> bool {
        &&& is_civil_time(self.local@)
        &&& -86_400 < self.offset@ < 86_400
        &&& utc_in_range(civil_seconds(self.local@) - self.offset@)
    }
}

/// The local date and time `days` days after `t`, at the same time of day.
spec fn days_later(t: CivilTime, days: int) -> CivilTime {
    let n = day_number(t.year, t.month, t.day) + days;
    let (y, m, d) = choose|y: int, m: int, d: int| is_date(y, m, d) && day_number(y, m, d) == n;
    CivilTime { year: y, month: m, day: d, hour: t.hour, minute: t.minute, second: t.second }
}

/// A local date and time from its numbers.
spec fn civil_of(year: i32, month: u32, day: u32, hour: u32, min: u32, sec: u32) -> CivilTime {
    CivilTime {
        year: year as int, month: month as int, day: day as int,
        hour: hour as int, minute: min as int, second: sec as int,
    }
}

/// `chrono::FixedOffset::east_opt`: a time zone `secs` seconds east of UTC, which
/// exists exactly when `secs` is strictly between -86 400 and 86 400.
#[verifier::external_body]
fn fixed_offset_east(secs: i32) -> (r: Option<ZoneOffset>)
    ensures
        r is Some <==> -86_400 < secs < 86_400,
        r matches Some(z) ==> z.secs@ == secs as int,
{
    match FixedOffset::east_opt(secs) {
        Some(offset) => Some(ZoneOffset { offset, secs: Ghost(secs as int) }),
        None => None,
    }
}

/// `chrono::TimeZone::with_ymd_and_hms` on a fixed offset: the point in time with the given
/// local date and time. It exists exactly when the date is a calendar date of a year
/// `chrono` holds, the time of day is valid, and the UTC time lies in `chrono`'s range;
/// a fixed offset never makes a local time ambiguous.
#[verifier::external_body]
fn zoned_at(tz: &ZoneOffset, year: i32, month: u32, day: u32, hour: u32, min: u32, sec: u32) -> (r: Option<ZonedTime>)
    requires
        -86_400 < tz.secs@ < 86_400,
    ensures
        r is Some <==> (min_year() <= year <= max_year()
            && is_civil_time(civil_of(year, month, day, hour, min, sec))
            && utc_in_range(civil_seconds(civil_of(year, month, day, hour, min, sec)) - tz.secs@)),
        r matches Some(z) ==> z.local@ == civil_of(year, month, day, hour, min, sec)
            && z.offset@ == tz.secs@ && z.wf(),
{
    match tz.offset.with_ymd_and_hms(year, month, day, hour, min, sec) {
        chrono::MappedLocalTime::Single(time) => Some(ZonedTime {
            time: ChronoTime { time },
            local: Ghost(civil_of(year, month, day, hour, min, sec)),
            offset: Ghost(tz.secs@),
        }),
        chrono::MappedLocalTime::Ambiguous(_, _) => None,
        chrono::MappedLocalTime::None => None,
    }
}

/// `chrono::TimeDelta::days`: a span of `days` whole days.
#[verifier::external_body]
fn day_span(days: i64) -> (r: DaySpan)
    requires
        -1_000_000 <= days <= 1_000_000,
    ensures
        r.days@ == days as int,
{
    DaySpan { delta: TimeDelta::days(days), days: Ghost(days as int) }
}

/// `DateTime + TimeDelta` (`chrono`'s `Add` on a date and time) with a span of whole days:
/// the point in time that many days later, in the same time zone; its local date is the
/// date that many days later and its local time of day is unchanged. The addition panics
/// when the UTC time leaves `chrono`'s range, which `requires` rules out.
#[verifier::external_body]
fn zoned_plus(t: &ZonedTime, span: &DaySpan) -> (z: ZonedTime)
    requires
        t.wf(),
        utc_in_range(civil_seconds(t.local@) - t.offset@ + span.days@ * 86_400),
    ensures
        z.wf(),
        z.offset@ == t.offset@,
        z.local@ == days_later(t.local@, span.days@),
        is_date(z.local@.year, z.local@.month, z.local@.day),
        day_number(z.local@.year, z.local@.month, z.local@.day)
            == day_number(t.local@.year, t.local@.month, t.local@.day) + span.days@,
{
    ZonedTime {
        time: ChronoTime { time: t.time.time + span.delta },
        local: Ghost(days_later(t.local@, span.days@)),
        offset: Ghost(t.offset@),
    }
}

/// `chrono::DateTime::format` with the pattern `%Y-%m-%d %H:%M:%S`, written to a string:
/// the local date and time as `YYYY-MM-DD HH:MM:SS` (the times built here carry no
/// fraction of a second).
#[verifier::external_body]
fn format_zoned(t: &ZonedTime, pattern: &str) -> (s: String)
    requires
        t.wf(),
        pattern@ == datetime_pattern(),
    ensures
        s@ == datetime_text(t.local@),
{
    t.time.time.format(pattern).to_string()
}

/// The start and end of a day of history, as `YYYY-MM-DD HH:MM:SS` text.
pub struct HistoryWindow {
    pub start: String,
    pub end: String,
}

/// A date whose history window can be computed: a calendar date of a year `chrono`
/// holds, other than the very first day `chrono` holds (whose Japanese midnight lies
/// before `chrono`'s range).
pub open spec fn history_date_ok(date: Date) -> bool {
    &&& min_year() <= date.0 <= max_year()
    &&& is_date(date.0 as int, date.1 as int, date.2 as int)
    &&& !(date.0 == min_year() && date.1 == 1 && date.2 == 1)
}

proof fn lemma_chrono_day_bounds(y: int, m: int, d: int)
    requires
        min_year() <= y <= max_year(),
        is_date(y, m, d),
    ensures
        day_number(min_year(), 1, 1) <= day_number(y, m, d) <= day_number(max_year(), 12, 31),
        day_number(y, m, d) == day_number(min_year(), 1, 1) <==> (y == min_year() && m == 1 && d == 1),
{
    if !(y == min_year() && m == 1 && d == 1) {
        lemma_day_number_ordered(min_year(), 1, 1, y, m, d);
    }
    if !(y == max_year() && m == 12 && d == 31) {
        lemma_day_number_ordered(y, m, d, max_year(), 12, 31);
    }
}

/// The window of a day of history in Japan Standard Time: from midnight at the start of
/// `date` to midnight at the start of the next day; `None` when `date` is not a day
/// `chrono` can place in that time zone.
pub fn temp_history_window(date: Date) -> (r: Option<HistoryWindow>)
    ensures
        r is Some <==> history_date_ok(date),
        r matches Some(w) ==> {
            &&& w.start@ == datetime_text(midnight(date.0 as int, date.1 as int, date.2 as int))
            &&& w.end@ == datetime_text(
                midnight(
                    next_date(date.0 as int, date.1 as int, date.2 as int).0,
                    next_date(date.0 as int, date.1 as int, date.2 as int).1,
                    next_date(date.0 as int, date.1 as int, date.2 as int).2,
                ),
            )
        },
{
    let Date(year, month, day) = date;
    let ghost (y, m, d) = (year as int, month as int, day as int);
    let jst = match fixed_offset_east(9 * 3600) {
        Some(z) => z,
        None => return None,
    };
    proof {
        if min_year() <= y <= max_year() && is_date(y, m, d) {
            lemma_chrono_day_bounds(y, m, d);
        }
    }
    let start = match zoned_at(&jst, year, month, day, 0, 0, 0) {
        Some(t) => t,
        None => return None,
    };
    let end = zoned_plus(&start, &day_span(1));
    proof {
        lemma_next_date(y, m, d);
        let (ny, nm, nd) = next_date(y, m, d);
        lemma_day_number_injective(end.local@.year, end.local@.month, end.local@.day, ny, nm, nd);
        assert(end.local@ == midnight(ny, nm, nd));
        reveal_strlit("%Y-%m-%d %H:%M:%S");
    }
    let pattern = "%Y-%m-%d %H:%M:%S";
    assert(pattern@ =~= datetime_pattern());
    let start_text = format_zoned(&start, pattern);
    let end_text = format_zoned(&end, pattern);
    Some(HistoryWindow { start: start_text, end: end_text })
}

} // verus!
