use remindbot::codec::{encode_store, parse_store};
use remindbot::commands::set_reminder;
use remindbot::store::Store;
use remindbot::timer::{TimeOfDay, Timer};
use remindbot::weekday::Weekday;

fn timer(w: Weekday, h: u8, m: u8, s: u8, name: &str, msg: &str, last: Option<i64>) -> Timer {
    Timer {
        name: name.to_string(),
        msg: msg.to_string(),
        week_day: w,
        time: TimeOfDay { hour: h, minute: m, second: s },
        last_time: last,
    }
}

fn assert_same_timers(a: &[Timer], b: &[Timer]) {
    assert_eq!(a.len(), b.len());
    for (x, y) in a.iter().zip(b.iter()) {
        assert_eq!(x.name, y.name);
        assert_eq!(x.msg, y.msg);
        assert_eq!(x.week_day, y.week_day);
        assert_eq!(x.time, y.time);
        assert_eq!(x.last_time, y.last_time);
    }
}

#[test]
fn empty_store_round_trips() {
    let store = Store::new();
    let text = encode_store(&store);
    assert_eq!(text, "reminders 0 ");
    let back = parse_store(&text).expect("snapshot should parse");
    assert_eq!(back.chat_count(), 0);
}

#[test]
fn snapshot_has_expected_shape() {
    let mut store = Store::new();
    store.add_timer(7, timer(Weekday::Mon, 9, 0, 0, "", "hi", None));
    let text = encode_store(&store);
    assert_eq!(text, "reminders 1 7 1 0  2 hi Mon 09:00:00 N ");
}

#[test]
fn full_store_round_trips() {
    let mut store = Store::new();
    store.add_timer(7, timer(Weekday::Mon, 9, 0, 0, "", "hi there", None));
    store.add_timer(
        -42,
        timer(Weekday::Sun, 23, 59, 59, "weekly digest", "send the digest now", Some(378_000_000)),
    );
    store.add_timer(7, timer(Weekday::Fri, 18, 30, 0, "wrap", "week is over", Some(123)));
    let text = encode_store(&store);
    let back = parse_store(&text).expect("snapshot should parse");
    assert_eq!(back.chat_count(), 2);
    assert_same_timers(&store.get_timers(7), &back.get_timers(7));
    assert_same_timers(&store.get_timers(-42), &back.get_timers(-42));
    // A second round trip is identical text.
    assert_eq!(encode_store(&back), text);
}

#[test]
fn message_with_spaces_and_odd_characters_round_trips() {
    let mut store = Store::new();
    store.add_timer(
        1,
        timer(Weekday::Wed, 12, 0, 0, "a b", "text with  spaces and \"quotes\" and N ", None),
    );
    let text = encode_store(&store);
    let back = parse_store(&text).expect("snapshot should parse");
    assert_same_timers(&store.get_timers(1), &back.get_timers(1));
}

#[test]
fn malformed_snapshots_are_rejected() {
    assert!(parse_store("").is_none());
    assert!(parse_store("reminders").is_none());
    assert!(parse_store("reminder x0 ").is_none());
    assert!(parse_store("reminders 0").is_none());
    assert!(parse_store("reminders 0  ").is_none());
    assert!(parse_store("reminders 1 ").is_none());
    assert!(parse_store("reminders 1 7 1 0  2 hi Mon 09:00:60 N ").is_none());
    assert!(parse_store("reminders 1 7 1 0  2 hi Mox 09:00:00 N ").is_none());
    // Two entries for the same chat are rejected.
    assert!(
        parse_store("reminders 2 7 1 0  2 hi Mon 09:00:00 N 7 1 0  2 yo Tue 10:00:00 N ")
            .is_none()
    );
    // The same text with distinct chats parses.
    assert!(
        parse_store("reminders 2 7 1 0  2 hi Mon 09:00:00 N 8 1 0  2 yo Tue 10:00:00 N ")
            .is_some()
    );
}

#[test]
fn no_lost_updates_both_changes_persist() {
    // A scheduler pass stamps a dedup instant on one chat's timer while a
    // registration appends a timer for another chat; both survive in the
    // persisted snapshot.
    let monday_nine: i64 = 4 * 86_400_000 + 9 * 3_600_000;
    let mut store = Store::new();
    store.add_timer(1, timer(Weekday::Mon, 9, 0, 0, "", "fire me", None));
    let out = store.tick(monday_nine);
    assert_eq!(out.len(), 1);
    let tokens: Vec<String> = vec!["Tue".to_string(), "10:00:00".to_string(), "other".to_string()];
    set_reminder(&mut store, 2, &tokens).expect("valid request");

    let back = parse_store(&encode_store(&store)).expect("snapshot should parse");
    assert_eq!(back.get_timers(1)[0].last_time, Some(monday_nine));
    let t2 = back.get_timers(2);
    assert_eq!(t2.len(), 1);
    assert_eq!(t2[0].msg, "other");
    assert_eq!(t2[0].last_time, None);
}
