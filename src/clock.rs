use crate::quote::SECONDS_PER_DAY;
use chrono::{Offset, TimeZone};
use vstd::prelude::*;

verus! {

/// Local minute of the day at which the regular session opens (09:30).
pub const SESSION_OPEN_MINUTE: i64 = 570;

/// Local minute of the day at which the regular session closes (16:00).
pub const SESSION_CLOSE_MINUTE: i64 = 960;

/// Local time of `now`, in seconds, at `offset` seconds from UTC.
pub open spec fn local_seconds(now: int, offset: int) -> int {
    now + offset
}

/// Local day of `now`, numbered from 1970-01-01 as day 0.
pub open spec fn local_day(now: int, offset: int) -> int {
    local_seconds(now, offset) / (SECONDS_PER_DAY as int)
}

/// Local minute of the day of `now`.
pub open spec fn local_minute(now: int, offset: int) -> int {
    local_seconds(now, offset) % (SECONDS_PER_DAY as int) / 60
}

/// `now` falls inside the regular session, from open to close in local time,
/// when that day's bar is not final yet.
pub open spec fn in_session(now: int, offset: int) -> bool {
    SESSION_OPEN_MINUTE <= local_minute(now, offset) < SESSION_CLOSE_MINUTE
}

/// The as-of time of a query made at `now` where local time is `offset`
/// seconds from UTC: the previous day's session close (16:00 local) while the
/// session is open, else `now` itself.
pub open spec fn reference_time_spec(now: int, offset: int) -> int {
    if in_session(now, offset) {
        (local_day(now, offset) - 1) * SECONDS_PER_DAY + SESSION_CLOSE_MINUTE * 60 - offset
    } else {
        now
    }
}

/// Offset in seconds of the exchange's local time (New York) from UTC at the
/// instant `utc`, or `None` where the instant cannot be represented.
pub uninterp spec fn exchange_offset_of(utc: i64) -> Option<i32>;

/// Relies on chrono's `DateTime::from_timestamp`, which gives `None` for an
/// instant out of its range, and on chrono-tz's `America/New_York` zone
/// (`TimeZone::offset_from_utc_datetime`, then `Offset::fix` and
/// `FixedOffset::local_minus_utc`): New York's offset from UTC at that instant,
/// daylight saving included.
#[verifier::external_body]
fn exchange_utc_offset(utc: i64) -> (r: Option<i32>)
    ensures
        r == exchange_offset_of(utc),
{
    chrono::DateTime::from_timestamp(utc, 0).map(
        |t| chrono_tz::America::New_York.offset_from_utc_datetime(&t.naive_utc()).fix().local_minus_utc(),
    )
}

/// The as-of time of a query made at `now` (UTC seconds) where local time is
/// `utc_offset` seconds from UTC: a bar of a trading day still open is not
/// final, so during the session the previous day's close is used instead.
pub fn reference_time_at(now: i64, utc_offset: i32) -> (r: i64)
    requires
        now >= i64::MIN + 2 * SECONDS_PER_DAY,
    ensures
        r == reference_time_spec(now as int, utc_offset as int),
{
    let local: i128 = now as i128 + utc_offset as i128;
    let day_len: i128 = SECONDS_PER_DAY as i128;
    let day = local.checked_div_euclid(day_len).unwrap();
    let second = local.checked_rem_euclid(day_len).unwrap();
    let minute = second / 60;
    assert(local == day * day_len + second) by (nonlinear_arith)
        requires day == local / day_len, second == local % day_len, day_len > 0;
    assert(0 <= second < day_len);
    if SESSION_OPEN_MINUTE as i128 <= minute && minute < SESSION_CLOSE_MINUTE as i128 {
        assert(second >= SESSION_OPEN_MINUTE * 60);
        ((day - 1) * day_len + (SESSION_CLOSE_MINUTE * 60) as i128 - utc_offset as i128) as i64
    } else {
        now
    }
}

/// The as-of time of a query made at `now` (UTC seconds), in New York time:
/// during the regular session the previous day's close, else `now`; `now`
/// also where the exchange's offset cannot be had for that instant.
pub fn reference_time(now: i64) -> (r: i64)
    requires
        now >= i64::MIN + 2 * SECONDS_PER_DAY,
    ensures
        r == match exchange_offset_of(now) {
            Some(offset) => reference_time_spec(now as int, offset as int),
            None => now as int,
        },
{
    match exchange_utc_offset(now) {
        Some(offset) => reference_time_at(now, offset),
        None => now,
    }
}

/// Whole days from `from` to `to`, rounded towards zero.
pub open spec fn whole_days(from: int, to: int) -> int {
    let d = to - from;
    if d >= 0 {
        d / (SECONDS_PER_DAY as int)
    } else {
        -((-d) / (SECONDS_PER_DAY as int))
    }
}

/// Whole days between two UTC timestamps, rounded towards zero.
pub fn days_between(from: i64, to: i64) -> (r: i64)
    ensures
        r == whole_days(from as int, to as int),
{
    let d: i128 = to as i128 - from as i128;
    let day_len: i128 = SECONDS_PER_DAY as i128;
    if d >= 0 {
        (d / day_len) as i64
    } else {
        (-((-d) / day_len)) as i64
    }
}

/// Days of history to ask for when the last stored bar is at `last_cached`
/// and the query is as of `reference`: the whole days between them plus two,
/// which cover a weekend or holiday and the stored bar itself for the
/// revision check. `None` where no whole day has passed and `force` is off.
pub open spec fn incremental_span_spec(reference: int, last_cached: int, force: bool) -> Option<int> {
    let days = whole_days(last_cached, reference);
    if days == 0 && !force {
        None
    } else {
        Some(days + 2)
    }
}

/// Days of history for an incremental request; `None` where the ticker is up
/// to date and `force` is off.
pub fn incremental_span(reference: i64, last_cached: i64, force: bool) -> (r: Option<i64>)
    ensures
        r matches Some(d) ==> incremental_span_spec(reference as int, last_cached as int, force) == Some(d as int),
        r is None <==> incremental_span_spec(reference as int, last_cached as int, force) is None,
{
    let days = days_between(last_cached, reference);
    if days == 0 && !force {
        None
    } else {
        Some(days + 2)
    }
}

} // verus!
