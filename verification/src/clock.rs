//! Wall-clock timestamps for the generated document.
//!
//! The current time and the display time zone come from outside crates; the
//! formatting of a timestamp into `YYYY-MM-DD HH:MM:SS` text is verified
//! here.
use chrono::Datelike;
use chrono::Timelike;
use vstd::prelude::*;

use crate::text::{dec_str, u64_to_dec_padded, zero_pad};

verus! {

/// A calendar timestamp in the display time zone.
#[derive(Clone, Copy, PartialEq, Eq, Structural)]
pub struct Timestamp {
    pub year: i32,
    pub month: u8,
    pub day: u8,
    pub hour: u8,
    pub minute: u8,
    pub second: u8,
}

impl Timestamp {
    /// The field ranges of a calendar timestamp.
    pub open spec fn wf(self) -> bool {
        &&& 1 <= self.month <= 12
        &&& 1 <= self.day <= 31
        &&& self.hour <= 23
        &&& self.minute <= 59
        &&& self.second <= 59
    }
}

/// Decimal text of a year, zero-padded to four digits, with a leading minus
/// sign for years before year zero.
pub open spec fn year_text(y: int) -> Seq<char> {
    if y >= 0 {
        zero_pad(dec_str(y as nat), 4)
    } else {
        seq!['-'] + zero_pad(dec_str((-y) as nat), 4)
    }
}

/// Two-digit zero-padded decimal text.
pub open spec fn two_digit_text(n: nat) -> Seq<char> {
    zero_pad(dec_str(n), 2)
}

/// `YYYY-MM-DD HH:MM:SS` text of a timestamp.
pub open spec fn timestamp_text(ts: Timestamp) -> Seq<char> {
    year_text(ts.year as int) + seq!['-'] + two_digit_text(ts.month as nat) + seq!['-']
        + two_digit_text(ts.day as nat) + seq![' '] + two_digit_text(ts.hour as nat) + seq![':']
        + two_digit_text(ts.minute as nat) + seq![':'] + two_digit_text(ts.second as nat)
}

/// Renders a year, zero-padded to four digits.
fn format_year(y: i32) -> (r: String)
    ensures
        r@ == year_text(y as int),
{
    if y >= 0 {
        u64_to_dec_padded(y as u64, 4)
    } else {
        let mag: u64 = (-(y as i64)) as u64;
        let mut r = String::from_str("-");
        r.append(u64_to_dec_padded(mag, 4).as_str());
        proof {
            reveal_strlit("-");
            assert(r@ =~= year_text(y as int));
        }
        r
    }
}

/// Renders a timestamp as `YYYY-MM-DD HH:MM:SS`.
pub fn format_timestamp(ts: &Timestamp) -> (r: String)
    ensures
        r@ == timestamp_text(*ts),
{
    let mut r = format_year(ts.year);
    r.append("-");
    r.append(u64_to_dec_padded(ts.month as u64, 2).as_str());
    r.append("-");
    r.append(u64_to_dec_padded(ts.day as u64, 2).as_str());
    r.append(" ");
    r.append(u64_to_dec_padded(ts.hour as u64, 2).as_str());
    r.append(":");
    r.append(u64_to_dec_padded(ts.minute as u64, 2).as_str());
    r.append(":");
    r.append(u64_to_dec_padded(ts.second as u64, 2).as_str());
    proof {
        reveal_strlit("-");
        reveal_strlit(" ");
        reveal_strlit(":");
        assert(("-")@ =~= seq!['-']);
        assert((" ")@ =~= seq![' ']);
        assert((":")@ =~= seq![':']);
        assert(r@ =~= timestamp_text(*ts));
    }
    r
}

/// The current calendar time in the Asia/Shanghai display time zone.
///
/// Relies on chrono's `From<SystemTime>` conversion (which, unlike
/// `Utc::now`, handles a clock set before 1970 without panicking; only a
/// clock beyond chrono's ±262000-year range would fail), on
/// `DateTime::with_timezone` with `chrono_tz::Asia::Shanghai`, and on
/// chrono's documented accessor ranges: `month` is 1..=12, `day` is 1..=31,
/// `hour` is below 24, and `minute` and `second` are below 60.
#[verifier::external_body]
pub(crate) fn now_shanghai() -> (t: Timestamp)
    ensures
        t.wf(),
{
    let utc: chrono::DateTime<chrono::Utc> = chrono::DateTime::from(std::time::SystemTime::now());
    let now = utc.with_timezone(&chrono_tz::Asia::Shanghai);
    Timestamp {
        year: now.year(),
        month: now.month() as u8,
        day: now.day() as u8,
        hour: now.hour() as u8,
        minute: now.minute() as u8,
        second: now.second() as u8,
    }
}

/// Milliseconds since the Unix epoch, for measuring a run's duration.
///
/// Relies on chrono's `From<SystemTime>` conversion (see `now_shanghai` on
/// why it is used instead of `Utc::now`) and `DateTime::timestamp_millis`;
/// nothing can be promised of the clock's value.
#[verifier::external_body]
pub(crate) fn epoch_millis() -> i64 {
    chrono::DateTime::<chrono::Utc>::from(std::time::SystemTime::now()).timestamp_millis()
}

/// The state captured when a run begins: the display timestamp for the
/// header and the instant from which the run's duration is measured.
pub struct RunClock {
    pub started: Timestamp,
    pub start_ms: i64,
}

/// Captures the clock at the start of a run.
pub fn start_run() -> (c: RunClock)
    ensures
        c.started.wf(),
{
    RunClock { started: now_shanghai(), start_ms: epoch_millis() }
}

/// The elapsed time from `start` to `end` in milliseconds: zero when the
/// clock moved backwards, saturated at the largest `u64` value.
pub fn elapsed_millis(start: i64, end: i64) -> (r: u64)
    ensures
        r == if end <= start {
            0
        } else if end - start <= u64::MAX {
            end - start
        } else {
            u64::MAX as int
        },
{
    if end <= start {
        0
    } else {
        let diff: i128 = (end as i128) - (start as i128);
        if diff > u64::MAX as i128 {
            u64::MAX
        } else {
            diff as u64
        }
    }
}

} // verus!
