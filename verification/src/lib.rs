//! A weekly-reminder engine: timers recur on a weekday at a wall-clock time,
//! a periodic tick scans the store and fires every timer that is due, a
//! dedup window keeps each occurrence to a single delivery, and the whole
//! store round-trips through a textual snapshot for persistence.
use vstd::prelude::*;

pub mod clock;
pub mod codec;
pub mod commands;
pub mod sched;
pub mod store;
pub mod timer;
pub mod weekday;

verus! {

/// Length of a day in milliseconds.
pub const DAY_MS: i64 = 86_400_000;

/// Length of a week in milliseconds.
pub const WEEK_MS: i64 = 604_800_000;

/// Tick interval of the scheduler loop, in milliseconds.
pub const TICK_MS: i64 = 100;

/// Match window: a timer is due while the clock is strictly within this
/// distance of the scheduled instant, in milliseconds.
pub const WINDOW_MS: i64 = 1_000;

/// Dedup window: a timer fires again only when strictly more than this many
/// milliseconds have passed since its last firing.
pub const DEDUP_MS: i64 = 100_000;

/// Fixed offset applied to UTC to obtain local wall-clock time (UTC+3).
pub const OFFSET_MS: i64 = 10_800_000;

/// Largest instant the engine works with: leaves room for a day of slack in
/// occurrence arithmetic without overflowing `i64`.
pub const MAX_INSTANT_MS: i64 = 0x7fff_ffff_ffff_ffff - 86_400_000;

/// An instant the engine can schedule against: milliseconds since the epoch,
/// non-negative and bounded so occurrence arithmetic stays in `i64`.
pub open spec fn valid_instant(ms: int) -> bool {
    0 <= ms <= MAX_INSTANT_MS
}

} // verus!
