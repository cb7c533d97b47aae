//! The wall clock, read through a handful of trusted calls.
//!
//! Everything downstream takes dates and instants as plain values, so a
//! test can pin "today" wherever it likes; these functions are how the
//! live pipeline obtains those values.

use vstd::prelude::*;

use crate::sched::{next_trigger, next_trigger_spec};
use crate::time::{
    format_bucket_key, format_date_key, is_bucket_key, is_date_key, lemma_format_bucket_key_wf,
    lemma_format_date_key_wf, render_bucket_key, render_date_key,
};

verus! {

/// Relies on `chrono::Local::now` and `NaiveDate`'s `Datelike`
/// accessors: `month` ranges over 1 to 12 and `day` over 1 to 31; the
/// year is whatever the local calendar says.
#[verifier::external_body]
fn local_today_fields() -> (r: (i32, u32, u32))
    ensures
        1 <= r.1 <= 12,
        1 <= r.2 <= 31,
{
    let d = chrono::Local::now().date_naive();
    (chrono::Datelike::year(&d), chrono::Datelike::month(&d), chrono::Datelike::day(&d))
}

/// Relies on `chrono::Utc::now` and the `Datelike` / `Timelike`
/// accessors: `month` 1 to 12, `day` 1 to 31, `hour` 0 to 23.
#[verifier::external_body]
fn utc_now_fields() -> (r: (i32, u32, u32, u32))
    ensures
        1 <= r.1 <= 12,
        1 <= r.2 <= 31,
        r.3 <= 23,
{
    let t = chrono::Utc::now();
    (
        chrono::Datelike::year(&t),
        chrono::Datelike::month(&t),
        chrono::Datelike::day(&t),
        chrono::Timelike::hour(&t),
    )
}

/// Relies on `chrono::Local::now`, `NaiveDate::and_hms_opt`,
/// `and_local_timezone(Local).single()` and `DateTime::timestamp`: the
/// result is the current instant and today's occurrence of the given
/// local time of day, both in Unix seconds, or `None` where that time
/// of day does not exist in the local calendar today.
#[verifier::external_body]
fn local_schedule_instants(hour: u32, minute: u32) -> (r: Option<(i64, i64)>)
    requires
        hour <= 23,
        minute <= 59,
{
    let now = chrono::Local::now();
    let target = now
        .date_naive()
        .and_hms_opt(hour, minute, 0)?
        .and_local_timezone(chrono::Local)
        .single()?;
    Some((now.timestamp(), target.timestamp()))
}

/// Today's local date as an eight-digit date key, or `None` for a year
/// no such key can carry.
pub fn today_date_key() -> (r: Option<String>)
    ensures
        r matches Some(k) ==> is_date_key(k@),
{
    let (y, mo, d) = local_today_fields();
    if y < 0 || y > 9999 {
        return None;
    }
    let key = render_date_key(y as u32, mo, d);
    proof {
        lemma_format_date_key_wf(y as nat, mo as nat, d as nat);
    }
    Some(key)
}

/// The current UTC hour as a ten-digit bucket key, or `None` for a
/// year no such key can carry.  This is the scanner's fallback context
/// for segments lying outside any bucket directory.
pub fn current_utc_hour_key() -> (r: Option<String>)
    ensures
        r matches Some(k) ==> is_bucket_key(k@),
{
    let (y, mo, d, h) = utc_now_fields();
    if y < 0 || y > 9999 {
        return None;
    }
    let key = render_bucket_key(y as u32, mo, d, h);
    proof {
        lemma_format_bucket_key_wf(y as nat, mo as nat, d as nat, h as nat);
    }
    Some(key)
}

/// Reads the clock and picks the next trigger for a daily schedule at
/// `hour:minute` local time: the instant to fire at and the seconds to
/// sleep until it.  `None` where the clock reading was unusable; the
/// choice itself always follows [`next_trigger_spec`] on what was read.
pub fn next_trigger_from_clock(hour: u8, minute: u8) -> (r: Option<(i64, i64)>)
    requires
        hour <= 23,
        minute <= 59,
    ensures
        r matches Some(p) ==> p.1 >= 1 && exists|now: int, tgt: int|
            p.0 == next_trigger_spec(now, tgt) && p.1 == p.0 - now,
{
    match local_schedule_instants(hour as u32, minute as u32) {
        Some((now_ts, target_ts)) => {
            if -100_000_000_000 <= now_ts && now_ts <= 100_000_000_000 && -100_000_000_000
                <= target_ts && target_ts <= 100_000_000_000 && now_ts < target_ts + 86400 {
                let (next, sleep) = next_trigger(now_ts, target_ts);
                proof {
                    assert(next == next_trigger_spec(now_ts as int, target_ts as int) && sleep
                        == next - now_ts);
                }
                Some((next, sleep))
            } else {
                None
            }
        },
        None => None,
    }
}

} // verus!
