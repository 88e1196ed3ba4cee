//! The matching and duplicate-suppression policy of the scheduler: when a
//! timer is due at an instant, what firing does to it, and the laws that
//! relate the tick interval, the match window and the dedup window.
use vstd::prelude::*;
use vstd::string::StringExecFns;
use crate::clock;
use crate::timer::{Timer, TimerModel};
use crate::{DEDUP_MS, TICK_MS, WEEK_MS, WINDOW_MS};

verus! {

/// The instant, on the day containing `now`, at which a timer with time of
/// day `time` is scheduled.
pub open spec fn occurrence_at(now: int, time: crate::timer::TimeOfDay) -> int {
    clock::day_start(now) + time.spec_offset_ms()
}

/// Whether `now` lies strictly within the match window around the scheduled
/// instant `occ`.
pub open spec fn in_window(now: int, occ: int) -> bool {
    -(WINDOW_MS as int) < now - occ < WINDOW_MS as int
}

/// Whether the dedup policy lets a timer with last firing `last` fire at
/// `now`: never fired, or fired strictly more than the dedup window ago.
pub open spec fn dedup_ok(last: Option<int>, now: int) -> bool {
    match last {
        None => true,
        Some(l) => now - l > DEDUP_MS as int,
    }
}

/// Whether the timer is due at `now`: today is its weekday, the clock is
/// within the match window of today's scheduled instant, and the dedup
/// policy allows a firing.
pub open spec fn is_due(t: TimerModel, now: int) -> bool {
    &&& t.week_day == clock::weekday_at(now)
    &&& in_window(now, occurrence_at(now, t.time))
    &&& dedup_ok(t.last_time, now)
}

/// The timer after firing at `now`: only the last-firing instant changes.
pub open spec fn fired(t: TimerModel, now: int) -> TimerModel {
    TimerModel { last_time: Some(now), ..t }
}

/// The timer after one evaluation at `now`: fired if due, untouched if not.
pub open spec fn timer_after(t: TimerModel, now: int) -> TimerModel {
    if is_due(t, now) {
        fired(t, now)
    } else {
        t
    }
}

/// The message delivered for a timer: its label, a separator, its text.
pub open spec fn render_msg(name: Seq<char>, msg: Seq<char>) -> Seq<char> {
    name + ": "@ + msg
}

/// Render the delivered message for a timer with label `name` and text
/// `msg`.
pub fn render_message(name: &String, msg: &String) -> (r: String)
    ensures
        r@ == render_msg(name@, msg@),
{
    let mut r = name.clone();
    r.append(": ");
    r.append(msg.as_str());
    proof {
        assert(r@ =~= render_msg(name@, msg@));
    }
    r
}

/// Decide whether `t` is due at `now`.
pub fn is_due_at(t: &Timer, now: i64) -> (r: bool)
    requires
        t.wf(),
        crate::valid_instant(now as int),
    ensures
        r == is_due(t@, now as int),
{
    let wd = clock::weekday_at_ms(now);
    if wd != t.week_day {
        return false;
    }
    let ds = clock::day_start_ms(now);
    let occ = ds + t.time.offset_ms();
    let delta = now - occ;
    if !(-WINDOW_MS < delta && delta < WINDOW_MS) {
        return false;
    }
    match t.last_time {
        None => true,
        Some(l) => now - l > DEDUP_MS,
    }
}

/// A timer list after one evaluation pass at `now`.
pub open spec fn timers_after(ts: Seq<TimerModel>, now: int) -> Seq<TimerModel> {
    Seq::new(ts.len(), |i: int| timer_after(ts[i], now))
}

/// The dispatches one evaluation pass at `now` hands out for `chat`'s
/// timers, in list order: one rendered message per due timer.
pub open spec fn disp_of_timers(chat: i64, ts: Seq<TimerModel>, now: int) -> Seq<(i64, Seq<char>)>
    decreases ts.len(),
{
    if ts.len() == 0 {
        Seq::empty()
    } else {
        disp_of_timers(chat, ts.drop_last(), now) + if is_due(ts.last(), now) {
            seq![(chat, render_msg(ts.last().name, ts.last().msg))]
        } else {
            Seq::empty()
        }
    }
}

/// The whole store after one evaluation pass at `now`: every chat keeps its
/// place, every timer is evaluated once.
pub open spec fn store_after_tick(v: crate::store::StoreModel, now: int) -> crate::store::StoreModel {
    Seq::new(v.len(), |i: int| (v[i].0, timers_after(v[i].1, now)))
}

/// The dispatches of one evaluation pass over the whole store, in store
/// order: chat order first, then per-chat timer order.
pub open spec fn dispatches_of(v: crate::store::StoreModel, now: int) -> Seq<(i64, Seq<char>)>
    decreases v.len(),
{
    if v.len() == 0 {
        Seq::empty()
    } else {
        dispatches_of(v.drop_last(), now) + disp_of_timers(v.last().0, v.last().1, now)
    }
}

/// The dispatch list as mathematics: chat identifiers with the delivered
/// text.
pub open spec fn out_view(out: Seq<(i64, String)>) -> Seq<(i64, Seq<char>)> {
    out.map_values(|p: (i64, String)| (p.0, p.1@))
}

/// The ticks never go backwards.
pub open spec fn ticks_monotone(ticks: Seq<int>) -> bool {
    forall|a: int, b: int| 0 <= a <= b < ticks.len() ==> ticks[a] <= ticks[b]
}

/// Consecutive ticks are at most the tick interval apart.
pub open spec fn ticks_dense(ticks: Seq<int>) -> bool {
    forall|k: int| 0 <= k < ticks.len() - 1 ==> #[trigger] ticks[k + 1] <= ticks[k] + TICK_MS
}

/// The timer after a whole run of evaluations, one per tick, in order.
pub open spec fn evolve(t: TimerModel, ticks: Seq<int>) -> TimerModel
    decreases ticks.len(),
{
    if ticks.len() == 0 {
        t
    } else {
        timer_after(evolve(t, ticks.drop_last()), ticks.last())
    }
}

/// Whether the timer fires at tick `i` of the run: it is due there, given
/// everything the earlier ticks did to it.
pub open spec fn fires_at(t: TimerModel, ticks: Seq<int>, i: int) -> bool {
    is_due(evolve(t, ticks.take(i)), ticks[i])
}

/// After the timer fires at tick `i`, its last-firing instant stays at or
/// above that tick's instant for the rest of the run.
proof fn lemma_evolve_last_bound(t: TimerModel, ticks: Seq<int>, i: int, k: int)
    requires
        ticks_monotone(ticks),
        0 <= i < k <= ticks.len(),
        fires_at(t, ticks, i),
    ensures
        evolve(t, ticks.take(k)).last_time matches Some(l) && l >= ticks[i],
    decreases k,
{
    assert(ticks.take(k).drop_last() =~= ticks.take(k - 1));
    assert(ticks.take(k).last() == ticks[k - 1]);
    if k == i + 1 {
        assert(evolve(t, ticks.take(k)) == timer_after(evolve(t, ticks.take(i)), ticks[i]));
    } else {
        lemma_evolve_last_bound(t, ticks, i, k - 1);
    }
}

/// At-most-once per dedup window: over any run of ordered ticks, two
/// firings of one timer are always strictly more than the dedup window
/// apart — within any span of that length the timer is dispatched at most
/// once.
pub proof fn lemma_at_most_once(t: TimerModel, ticks: Seq<int>, i: int, j: int)
    requires
        ticks_monotone(ticks),
        0 <= i < j < ticks.len(),
        fires_at(t, ticks, i),
        fires_at(t, ticks, j),
    ensures
        ticks[j] - ticks[i] > DEDUP_MS,
{
    lemma_evolve_last_bound(t, ticks, i, j);
    let l = evolve(t, ticks.take(j)).last_time->0;
    assert(ticks[j] - l > DEDUP_MS);
}

/// There is a tick inside the match window: the first tick at or past the
/// scheduled instant lands strictly within the window, because the ticks
/// start no later than the instant, reach it, and are spaced no further
/// apart than the window is wide.
proof fn lemma_tick_in_window(ticks: Seq<int>, occ: int, k0: int)
    requires
        ticks_monotone(ticks),
        ticks_dense(ticks),
        0 <= k0 < ticks.len(),
        ticks[k0] <= occ,
        occ <= ticks[ticks.len() - 1],
    ensures
        exists|k: int| 0 <= k < ticks.len() && occ <= #[trigger] ticks[k] < occ + WINDOW_MS,
    decreases ticks.len() - k0,
{
    if ticks[k0] == occ {
        assert(occ <= ticks[k0] < occ + WINDOW_MS);
    } else {
        assert(k0 < ticks.len() - 1);
        if ticks[k0 + 1] >= occ {
            assert(ticks[k0 + 1] <= ticks[k0] + TICK_MS);
            assert(occ <= ticks[k0 + 1] < occ + WINDOW_MS);
        } else {
            lemma_tick_in_window(ticks, occ, k0 + 1);
        }
    }
}

/// Two instants of the same day have the same weekday.
proof fn lemma_same_day_same_weekday(a: int, b: int)
    requires
        clock::day_start(a) == clock::day_start(b),
    ensures
        clock::weekday_at(a) == clock::weekday_at(b),
{
    let d = crate::DAY_MS as int;
    let qa = a / d;
    let qb = b / d;
    assert(qa * d == qb * d);
    assert(qa == qb) by (nonlinear_arith)
        requires
            qa * d == qb * d,
            d > 0,
    ;
}

/// A timer that no tick of the run's prefix fires is unchanged by it.
proof fn lemma_no_fire_evolve(t: TimerModel, ticks: Seq<int>, k: int)
    requires
        0 <= k <= ticks.len(),
        forall|j: int| 0 <= j < k ==> !fires_at(t, ticks, j),
    ensures
        evolve(t, ticks.take(k)) == t,
    decreases k,
{
    if k == 0 {
        assert(ticks.take(0) =~= Seq::<int>::empty());
    } else {
        lemma_no_fire_evolve(t, ticks, k - 1);
        assert(ticks.take(k).drop_last() =~= ticks.take(k - 1));
        assert(ticks.take(k).last() == ticks[k - 1]);
        assert(!fires_at(t, ticks, k - 1));
    }
}

/// At-least-once per occurrence: the match window is at least as wide as the
/// tick interval, so for any timer whose scheduled instant falls inside the
/// span of the ticks, the run dispatches the timer at some tick — provided
/// no earlier firing of the same occurrence stands within the dedup window
/// of the instant.
pub proof fn lemma_at_least_once(t: TimerModel, ticks: Seq<int>, occ: int)
    requires
        t.time.wf(),
        ticks_monotone(ticks),
        ticks_dense(ticks),
        ticks.len() > 0,
        occ == clock::day_start(occ) + t.time.spec_offset_ms(),
        t.week_day == clock::weekday_at(occ),
        ticks[0] <= occ <= ticks[ticks.len() - 1],
        match t.last_time {
            None => true,
            Some(l) => occ - l > DEDUP_MS,
        },
    ensures
        exists|k: int| 0 <= k < ticks.len() && #[trigger] fires_at(t, ticks, k),
{
    lemma_tick_in_window(ticks, occ, 0);
    let k = choose|k: int| 0 <= k < ticks.len() && occ <= #[trigger] ticks[k] < occ + WINDOW_MS;
    let tk = ticks[k];
    let ds = clock::day_start(occ);
    clock::lemma_day_start_bounds(occ);
    assert(clock::day_start(tk) == ds) by {
        assert(t.time.spec_offset_ms() + WINDOW_MS <= crate::DAY_MS);
        clock::lemma_day_start_of_day(ds, tk);
    }
    lemma_same_day_same_weekday(tk, occ);
    assert(occurrence_at(tk, t.time) == occ);
    assert(in_window(tk, occ));
    assert(is_due(t, tk));
    if exists|j: int| 0 <= j < k && #[trigger] fires_at(t, ticks, j) {
        let j = choose|j: int| 0 <= j < k && #[trigger] fires_at(t, ticks, j);
        assert(fires_at(t, ticks, j));
    } else {
        assert forall|j: int| 0 <= j < k implies !fires_at(t, ticks, j) by {}
        lemma_no_fire_evolve(t, ticks, k);
        assert(fires_at(t, ticks, k));
    }
}

/// No duplicate across a week boundary: a timer that fired at one occurrence
/// is eligible again at the next week's occurrence — the dedup window has
/// long expired, the weekday matches again, and any tick in the next
/// occurrence's match window (at or past the instant) fires it.
pub proof fn lemma_week_boundary(t: TimerModel, now1: int, now2: int)
    requires
        t.time.wf(),
        is_due(t, now1),
        occurrence_at(now1, t.time) + WEEK_MS <= now2 < occurrence_at(now1, t.time) + WEEK_MS
            + WINDOW_MS,
    ensures
        is_due(fired(t, now1), now2),
{
    let d = crate::DAY_MS as int;
    let occ1 = occurrence_at(now1, t.time);
    let occ2 = occ1 + WEEK_MS;
    let ds1 = clock::day_start(now1);
    clock::lemma_day_start_bounds(now1);
    assert((ds1 + WEEK_MS) % d == 0) by {
        let q = now1 / d;
        assert(ds1 + WEEK_MS == (q + 7) * d) by (nonlinear_arith)
            requires
                ds1 == q * d,
                WEEK_MS == 7 * d,
        ;
        vstd::arithmetic::div_mod::lemma_mod_multiples_basic(q + 7, d);
    }
    assert(clock::day_start(now2) == ds1 + WEEK_MS) by {
        assert(t.time.spec_offset_ms() + WINDOW_MS <= d);
        clock::lemma_day_start_of_day(ds1 + WEEK_MS, now2);
    }
    assert(clock::weekday_at(now2) == clock::weekday_at(now1 + WEEK_MS)) by {
        assert(clock::day_start(now1 + WEEK_MS) == ds1 + WEEK_MS) by {
            clock::lemma_day_start_of_day(ds1 + WEEK_MS, now1 + WEEK_MS);
        }
        lemma_same_day_same_weekday(now2, now1 + WEEK_MS);
    }
    clock::lemma_weekday_week_periodic(now1);
    assert(occurrence_at(now2, t.time) == occ2);
    assert(in_window(now2, occ2));
    assert(now2 - now1 > DEDUP_MS) by {
        assert(now1 < occ1 + WINDOW_MS);
    }
}

} // verus!
