use remindbot::commands::{classify_command, help_text, parse_request, Command, ParseError};
use remindbot::timer::{parse_time, TimeOfDay};
use remindbot::weekday::{parse_weekday, Weekday};

fn toks(ts: &[&str]) -> Vec<String> {
    ts.iter().map(|s| s.to_string()).collect()
}

#[test]
fn weekday_all_tags_parse() {
    assert_eq!(parse_weekday("Mon"), Some(Weekday::Mon));
    assert_eq!(parse_weekday("Tue"), Some(Weekday::Tue));
    assert_eq!(parse_weekday("Wed"), Some(Weekday::Wed));
    assert_eq!(parse_weekday("Thu"), Some(Weekday::Thu));
    assert_eq!(parse_weekday("Fri"), Some(Weekday::Fri));
    assert_eq!(parse_weekday("Sat"), Some(Weekday::Sat));
    assert_eq!(parse_weekday("Sun"), Some(Weekday::Sun));
}

#[test]
fn weekday_rejects_anything_else() {
    assert_eq!(parse_weekday("Mnday"), None);
    assert_eq!(parse_weekday("mon"), None);
    assert_eq!(parse_weekday("Monday"), None);
    assert_eq!(parse_weekday(""), None);
    assert_eq!(parse_weekday("MON"), None);
}

#[test]
fn weekday_tag_round_trips() {
    for w in [
        Weekday::Mon,
        Weekday::Tue,
        Weekday::Wed,
        Weekday::Thu,
        Weekday::Fri,
        Weekday::Sat,
        Weekday::Sun,
    ] {
        assert_eq!(parse_weekday(w.tag()), Some(w));
    }
}

#[test]
fn weekday_index_round_trips() {
    for i in 0u8..7 {
        assert_eq!(Weekday::from_index(i).index(), i);
    }
    assert_eq!(Weekday::Mon.index(), 0);
    assert_eq!(Weekday::Sun.index(), 6);
}

#[test]
fn time_parses_strictly() {
    assert_eq!(
        parse_time("09:00:00"),
        Some(TimeOfDay { hour: 9, minute: 0, second: 0 })
    );
    assert_eq!(
        parse_time("23:59:59"),
        Some(TimeOfDay { hour: 23, minute: 59, second: 59 })
    );
    assert_eq!(
        parse_time("00:00:00"),
        Some(TimeOfDay { hour: 0, minute: 0, second: 0 })
    );
}

#[test]
fn time_rejects_out_of_range_and_malformed() {
    assert_eq!(parse_time("24:00:00"), None);
    assert_eq!(parse_time("09:60:00"), None);
    assert_eq!(parse_time("09:00:60"), None);
    assert_eq!(parse_time("9:00:00"), None);
    assert_eq!(parse_time("09:00:0a"), None);
    assert_eq!(parse_time("090000"), None);
    assert_eq!(parse_time("09-00-00"), None);
    assert_eq!(parse_time(""), None);
}

#[test]
fn request_parses_three_tokens() {
    let r = parse_request(&toks(&["Mon", "09:00:00", "standup"]));
    let (w, t, m) = r.expect("request should parse");
    assert_eq!(w, Weekday::Mon);
    assert_eq!(t, TimeOfDay { hour: 9, minute: 0, second: 0 });
    assert_eq!(m, "standup".to_string());
}

#[test]
fn request_error_names_first_bad_field() {
    assert_eq!(parse_request(&toks(&[])), Err(ParseError::NoWeekday));
    assert_eq!(
        parse_request(&toks(&["Mnday", "09:00:00", "hi"])),
        Err(ParseError::BadWeekday)
    );
    assert_eq!(parse_request(&toks(&["Mon"])), Err(ParseError::NoTime));
    assert_eq!(
        parse_request(&toks(&["Mon", "9:00"])),
        Err(ParseError::BadTime)
    );
    assert_eq!(
        parse_request(&toks(&["Mon", "09:00:00"])),
        Err(ParseError::NoMessage)
    );
    assert_eq!(
        parse_request(&toks(&["Mon", "09:00:00", ""])),
        Err(ParseError::NoMessage)
    );
}

#[test]
fn commands_classify() {
    assert_eq!(classify_command("/remind"), Command::Remind);
    assert_eq!(classify_command("/remind_state"), Command::RemindState);
    assert_eq!(classify_command("/remind_help"), Command::RemindHelp);
    assert_eq!(classify_command("/other"), Command::Other);
    assert_eq!(classify_command("remind"), Command::Other);
    assert_eq!(classify_command(""), Command::Other);
}

#[test]
fn help_text_is_usage_line() {
    assert_eq!(help_text(), "/remind <Weekday: 3 letters Mon, ...> HH:MM:SS");
}
