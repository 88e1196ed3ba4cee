//! The engine's model of time: an instant is a count of milliseconds since
//! the Unix epoch, local wall-clock time is UTC plus a fixed offset, and the
//! weekday of an instant is pure arithmetic on its day number (the epoch day
//! was a Thursday).
use vstd::prelude::*;
use crate::weekday::Weekday;
use crate::{DAY_MS, MAX_INSTANT_MS, OFFSET_MS, WEEK_MS};

verus! {

/// The instant at which the day containing `ms` began (floor to a multiple
/// of a day).
pub open spec fn day_start(ms: int) -> int {
    (ms / (DAY_MS as int)) * (DAY_MS as int)
}

/// Index of the weekday of the day containing `ms`, Monday = 0 .. Sunday = 6.
/// Day zero (the epoch day, 1970-01-01) was a Thursday, index 3.
pub open spec fn weekday_index_at(ms: int) -> int {
    (ms / (DAY_MS as int) + 3) % 7
}

/// The weekday of the day containing `ms`.
pub open spec fn weekday_at(ms: int) -> Weekday {
    Weekday::spec_from_index(weekday_index_at(ms))
}

/// A day starts at or before its instants and ends a day later.
pub proof fn lemma_day_start_bounds(ms: int)
    ensures
        day_start(ms) <= ms < day_start(ms) + DAY_MS,
        day_start(ms) % (DAY_MS as int) == 0,
{
    let d = DAY_MS as int;
    vstd::arithmetic::div_mod::lemma_fundamental_div_mod(ms, d);
    vstd::arithmetic::div_mod::lemma_mod_division_less_than_divisor(ms, d);
    vstd::arithmetic::div_mod::lemma_mod_multiples_basic(ms / d, d);
}

/// Every instant of the day beginning at `start` has that day start.
pub proof fn lemma_day_start_of_day(start: int, ms: int)
    requires
        start % (DAY_MS as int) == 0,
        start <= ms < start + DAY_MS,
    ensures
        day_start(ms) == start,
{
    let d = DAY_MS as int;
    vstd::arithmetic::div_mod::lemma_fundamental_div_mod_converse_div(
        ms,
        d,
        start / d,
        ms - start,
    );
    vstd::arithmetic::div_mod::lemma_fundamental_div_mod(start, d);
}

/// The weekday repeats with a period of one week.
pub proof fn lemma_weekday_week_periodic(ms: int)
    ensures
        weekday_at(ms + WEEK_MS) == weekday_at(ms),
{
    let d = DAY_MS as int;
    let q = ms / d;
    assert((ms + WEEK_MS) / d == q + 7) by {
        vstd::arithmetic::div_mod::lemma_hoist_over_denominator(ms, 7, d as nat);
    }
    assert((q + 3 + 7) % 7 == (q + 3) % 7) by {
        vstd::arithmetic::div_mod::lemma_mod_add_multiples_vanish(q + 3, 7);
    }
}

/// The instant at which the day containing `now` began.
pub fn day_start_ms(now: i64) -> (r: i64)
    requires
        crate::valid_instant(now as int),
    ensures
        r as int == day_start(now as int),
        0 <= r <= now,
{
    let n = now as u64;
    let start = (n / (DAY_MS as u64)) * (DAY_MS as u64);
    proof {
        lemma_day_start_bounds(now as int);
    }
    start as i64
}

/// The weekday of the day containing `now`.
pub fn weekday_at_ms(now: i64) -> (w: Weekday)
    requires
        crate::valid_instant(now as int),
    ensures
        w == weekday_at(now as int),
{
    let n = now as u64;
    let idx = ((n / (DAY_MS as u64)) % 7 + 3) % 7;
    proof {
        let d = DAY_MS as int;
        let q = (now as int) / d;
        assert((q % 7 + 3) % 7 == (q + 3) % 7) by {
            vstd::arithmetic::div_mod::lemma_add_mod_noop(q, 3, 7);
            vstd::arithmetic::div_mod::lemma_mod_twice(q, 7);
            vstd::arithmetic::div_mod::lemma_small_mod(3, 7);
        }
        vstd::arithmetic::div_mod::lemma_mod_division_less_than_divisor(q % 7 + 3, 7);
        vstd::arithmetic::div_mod::lemma_mod_division_less_than_divisor(q, 7);
    }
    Weekday::from_index(idx as u8)
}

/// Relies on `chrono::Utc::now` and `DateTime::timestamp_millis`: the current
/// UTC time as whole milliseconds since the Unix epoch. Nothing is promised
/// of the value; callers must cope with any reading of the clock.
#[verifier::external_body]
fn utc_now_ms() -> i64 {
    chrono::Utc::now().timestamp_millis()
}

/// The current local wall-clock instant: UTC plus the fixed offset, clamped
/// into the range the engine schedules against. The clamp only acts on clock
/// readings outside the representable era.
pub fn current_local_ms() -> (r: i64)
    ensures
        crate::valid_instant(r as int),
{
    let utc = utc_now_ms();
    if utc < 0 {
        0
    } else if utc > MAX_INSTANT_MS - OFFSET_MS {
        MAX_INSTANT_MS
    } else {
        utc + OFFSET_MS
    }
}

} // verus!
