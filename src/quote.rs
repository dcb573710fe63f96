use chrono::Datelike;
use vstd::prelude::*;

verus! {

/// Number of fixed-point units in one unit of currency: prices and indicator
/// values carry eight decimal places.
pub const PRICE_SCALE: u64 = 100_000_000;

/// Seconds in one day.
pub const SECONDS_PER_DAY: i64 = 86_400;

/// Day number that `chrono` gives to 1970-01-01 when counting from 0001-01-01 as day 1.
pub const UNIX_EPOCH_DAY_FROM_CE: i64 = 719_163;

/// Seconds after UTC midnight at which a bar's session date is stamped:
/// 16:00 at UTC-4, the daylight-time close, used all year round so that each
/// session date keeps one timestamp as its storage key.
pub const SESSION_CLOSE_UTC_SECONDS: i64 = 72_000;

/// The layout of a bar's session date as the market-data session sends it.
pub const BAR_DATE_FORMAT: &'static str = "%Y%m%d";

/// One daily bar. Prices are unsigned fixed-point numbers with
/// `PRICE_SCALE` units per unit of currency.
#[derive(Clone, Copy, Debug, PartialEq, Eq, Structural)]
pub struct Quote {
    /// UTC seconds of the bar's session close.
    pub timestamp: i64,
    pub open: u64,
    pub close: u64,
    pub high: u64,
    pub low: u64,
    /// Volume-weighted average price; negative where the source has none.
    pub avg: i64,
    pub volume: i64,
    /// Number of trades in the bar.
    pub count: i32,
}

/// A stored bar together with the identifier the store gave it.
#[derive(Clone, Copy, Debug, PartialEq, Eq, Structural)]
pub struct QuoteRow {
    pub id: i32,
    pub quote: Quote,
}

impl Quote {
    /// A bar whose close lies within its own low-high range.
    pub open spec fn is_consistent(&self) -> bool {
        self.low <= self.close <= self.high
    }
}

/// Day number of the date that `text` spells in `format`, counted from
/// 0001-01-01 as day 1, or `None` where `text` is no date in that layout.
pub uninterp spec fn days_from_ce_of(text: Seq<char>, format: Seq<char>) -> Option<i32>;

/// Relies on `chrono::NaiveDate::parse_from_str`, which reads a calendar date
/// laid out as `format` and rejects text that is no valid date, and on
/// `Datelike::num_days_from_ce`, which numbers that date.
#[verifier::external_body]
fn parse_days_from_ce(text: &str, format: &str) -> (r: Option<i32>)
    ensures
        r == days_from_ce_of(text@, format@),
{
    chrono::NaiveDate::parse_from_str(text, format).ok().map(|d| d.num_days_from_ce())
}

/// UTC timestamp of the session close (16:00 at UTC-4) on the day numbered
/// `epoch_day` from 1970-01-01 as day 0.
pub open spec fn session_close_spec(epoch_day: int) -> int {
    epoch_day * SECONDS_PER_DAY + SESSION_CLOSE_UTC_SECONDS
}

/// UTC timestamp of the session close on a day numbered from 0001-01-01 as day 1.
pub fn session_close_timestamp(days_from_ce: i32) -> (r: i64)
    ensures
        r == session_close_spec(days_from_ce - UNIX_EPOCH_DAY_FROM_CE),
{
    (days_from_ce as i64 - UNIX_EPOCH_DAY_FROM_CE) * SECONDS_PER_DAY + SESSION_CLOSE_UTC_SECONDS
}

/// Timestamp of a bar whose session date reads `YYYYMMDD`: that day's session
/// close in UTC, or `None` where the text is no date.
pub fn bar_timestamp(date: &str) -> (r: Option<i64>)
    ensures
        r matches Some(t) ==> days_from_ce_of(date@, BAR_DATE_FORMAT@) matches Some(d)
            && t == session_close_spec(d - UNIX_EPOCH_DAY_FROM_CE),
        r is None <==> days_from_ce_of(date@, BAR_DATE_FORMAT@) is None,
{
    match parse_days_from_ce(date, BAR_DATE_FORMAT) {
        Some(d) => Some(session_close_timestamp(d)),
        None => None,
    }
}

} // verus!
