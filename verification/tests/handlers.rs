use remindbot::clock::{current_local_ms, day_start_ms, weekday_at_ms};
use remindbot::commands::{query_state, set_reminder, ParseError};
use remindbot::store::Store;
use remindbot::timer::TimeOfDay;
use remindbot::weekday::Weekday;

fn toks(ts: &[&str]) -> Vec<String> {
    ts.iter().map(|s| s.to_string()).collect()
}

#[test]
fn malformed_command_leaves_store_unchanged() {
    let mut store = Store::new();
    let r = set_reminder(&mut store, 3, &toks(&["Mnday", "09:00:00", "hi"]));
    assert_eq!(r, Err(ParseError::BadWeekday));
    assert!(store.get_timers(3).is_empty());
    assert_eq!(store.chat_count(), 0);

    // Also after the chat already has a timer.
    set_reminder(&mut store, 3, &toks(&["Mon", "09:00:00", "hi"])).expect("valid request");
    let before = store.get_timers(3).len();
    let r = set_reminder(&mut store, 3, &toks(&["Mon", "25:00:00", "hi"]));
    assert_eq!(r, Err(ParseError::BadTime));
    assert_eq!(store.get_timers(3).len(), before);
}

#[test]
fn valid_command_appends_unfired_timer() {
    let mut store = Store::new();
    set_reminder(&mut store, 9, &toks(&["Fri", "18:15:00", "weekly wrap"])).expect("valid request");
    let ts = query_state(&store, 9);
    assert_eq!(ts.len(), 1);
    assert_eq!(ts[0].name, "");
    assert_eq!(ts[0].msg, "weekly wrap");
    assert_eq!(ts[0].week_day, Weekday::Fri);
    assert_eq!(ts[0].time, TimeOfDay { hour: 18, minute: 15, second: 0 });
    assert_eq!(ts[0].last_time, None);
}

#[test]
fn query_of_unknown_chat_is_empty() {
    let store = Store::new();
    assert!(query_state(&store, 1234).is_empty());
}

#[test]
fn clock_weekday_arithmetic() {
    // The epoch day, 1970-01-01, was a Thursday; four days later a Monday.
    assert_eq!(weekday_at_ms(0), Weekday::Thu);
    assert_eq!(weekday_at_ms(4 * 86_400_000), Weekday::Mon);
    assert_eq!(weekday_at_ms(4 * 86_400_000 + 86_399_999), Weekday::Mon);
    assert_eq!(weekday_at_ms(5 * 86_400_000), Weekday::Tue);
    assert_eq!(weekday_at_ms(11 * 86_400_000), Weekday::Mon);
}

#[test]
fn clock_day_start_floors() {
    assert_eq!(day_start_ms(0), 0);
    assert_eq!(day_start_ms(4 * 86_400_000 + 12_345), 4 * 86_400_000);
    assert_eq!(day_start_ms(4 * 86_400_000), 4 * 86_400_000);
}

#[test]
fn local_clock_reads_within_schedulable_range() {
    let now = current_local_ms();
    assert!(now >= 0);
    // A real clock reading lies decades past the epoch.
    assert!(now > 1_000_000_000_000);
}
