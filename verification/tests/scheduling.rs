use remindbot::sched::render_message;
use remindbot::store::Store;
use remindbot::timer::{TimeOfDay, Timer};
use remindbot::weekday::Weekday;

// 1970-01-05 was a Monday; all instants are local milliseconds since the
// epoch, matching the engine's clock model.
const MONDAY_MS: i64 = 4 * 86_400_000;
const HOUR_MS: i64 = 3_600_000;
const WEEK_MS: i64 = 604_800_000;

fn timer(w: Weekday, h: u8, m: u8, s: u8, msg: &str) -> Timer {
    Timer {
        name: "".to_string(),
        msg: msg.to_string(),
        week_day: w,
        time: TimeOfDay { hour: h, minute: m, second: s },
        last_time: None,
    }
}

#[test]
fn store_starts_empty() {
    let store = Store::new();
    assert_eq!(store.chat_count(), 0);
    assert!(store.get_timers(1).is_empty());
}

#[test]
fn added_timer_is_returned_in_order() {
    let mut store = Store::new();
    store.add_timer(5, timer(Weekday::Mon, 9, 0, 0, "first"));
    store.add_timer(5, timer(Weekday::Tue, 10, 30, 0, "second"));
    store.add_timer(-12, timer(Weekday::Sun, 23, 59, 59, "group"));
    let ts = store.get_timers(5);
    assert_eq!(ts.len(), 2);
    assert_eq!(ts[0].msg, "first");
    assert_eq!(ts[0].week_day, Weekday::Mon);
    assert_eq!(ts[1].msg, "second");
    assert_eq!(ts[1].time, TimeOfDay { hour: 10, minute: 30, second: 0 });
    let tg = store.get_timers(-12);
    assert_eq!(tg.len(), 1);
    assert_eq!(tg[0].msg, "group");
    assert!(store.get_timers(999).is_empty());
}

#[test]
fn example_scenario_exactly_one_dispatch() {
    // A timer for Monday 09:00:00; the clock starts at a simulated Monday
    // 08:59:59.500 and ticks every 100 ms.
    let mut store = Store::new();
    store.add_timer(1, timer(Weekday::Mon, 9, 0, 0, "standup"));
    let occurrence = MONDAY_MS + 9 * HOUR_MS;
    let start = occurrence - 500;

    // Between 08:59:59 and 09:00:01 exactly one dispatch occurs.
    let mut dispatches: Vec<(i64, String, i64)> = Vec::new();
    let mut now = start;
    while now <= occurrence + 1000 {
        for (chat, text) in store.tick(now) {
            dispatches.push((chat, text, now));
        }
        now += 100;
    }
    assert_eq!(dispatches.len(), 1);
    assert_eq!(dispatches[0].0, 1);
    assert_eq!(dispatches[0].1, ": standup");
    // The first tick already lies inside the match window, so the dispatch
    // happens at the start instant, and last_fired is stamped to it.
    assert_eq!(dispatches[0].2, start);
    assert_eq!(store.get_timers(1)[0].last_time, Some(start));

    // No second dispatch before 09:01:40 (100 s after the firing).
    let mut count: usize = 0;
    let mut now = occurrence + 1000;
    while now <= start + 100_000 {
        count += store.tick(now).len();
        now += 100;
    }
    assert_eq!(count, 0);

    // The following Monday the timer is eligible again.
    let out = store.tick(occurrence + WEEK_MS);
    assert_eq!(out.len(), 1);
    assert_eq!(out[0].0, 1);
    assert_eq!(store.get_timers(1)[0].last_time, Some(occurrence + WEEK_MS));
}

#[test]
fn dedup_window_boundary() {
    // Fired 100 000 ms ago: still suppressed (the dedup test is strict).
    let mut store = Store::new();
    let occurrence = MONDAY_MS + 9 * HOUR_MS;
    let mut t = timer(Weekday::Mon, 9, 0, 0, "x");
    t.last_time = Some(occurrence - 100_000);
    store.add_timer(1, t);
    assert_eq!(store.tick(occurrence).len(), 0);

    // Fired 100 001 ms ago: eligible again.
    let mut store = Store::new();
    let mut t = timer(Weekday::Mon, 9, 0, 0, "x");
    t.last_time = Some(occurrence - 100_001);
    store.add_timer(1, t);
    assert_eq!(store.tick(occurrence).len(), 1);
}

#[test]
fn wrong_weekday_or_outside_window_does_not_fire() {
    let mut store = Store::new();
    store.add_timer(1, timer(Weekday::Tue, 9, 0, 0, "x"));
    let occurrence = MONDAY_MS + 9 * HOUR_MS;
    assert_eq!(store.tick(occurrence).len(), 0);

    let mut store = Store::new();
    store.add_timer(1, timer(Weekday::Mon, 9, 0, 0, "x"));
    // Exactly one second away is already outside the strict window.
    assert_eq!(store.tick(occurrence - 1000).len(), 0);
    assert_eq!(store.tick(occurrence + 1000).len(), 0);
    // Just inside on both sides fires (fresh stores, no dedup involvement).
    let mut store = Store::new();
    store.add_timer(1, timer(Weekday::Mon, 9, 0, 0, "x"));
    assert_eq!(store.tick(occurrence - 999).len(), 1);
    let mut store = Store::new();
    store.add_timer(1, timer(Weekday::Mon, 9, 0, 0, "x"));
    assert_eq!(store.tick(occurrence + 999).len(), 1);
}

#[test]
fn tick_evaluates_in_store_order() {
    let mut store = Store::new();
    store.add_timer(2, timer(Weekday::Mon, 9, 0, 0, "a"));
    store.add_timer(1, timer(Weekday::Mon, 9, 0, 0, "b"));
    store.add_timer(2, timer(Weekday::Mon, 9, 0, 0, "c"));
    let occurrence = MONDAY_MS + 9 * HOUR_MS;
    let out = store.tick(occurrence);
    let got: Vec<(i64, String)> = out;
    assert_eq!(
        got,
        vec![
            (2, ": a".to_string()),
            (2, ": c".to_string()),
            (1, ": b".to_string()),
        ]
    );
}

#[test]
fn render_message_joins_name_and_text() {
    assert_eq!(
        render_message(&"lunch".to_string(), &"eat now".to_string()),
        "lunch: eat now"
    );
    assert_eq!(render_message(&"".to_string(), &"hi".to_string()), ": hi");
}
