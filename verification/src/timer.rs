//! A timer is one recurring weekly reminder: a label, the text to deliver, a
//! weekday and a wall-clock time of day, and the instant of its most recent
//! firing for duplicate suppression.
use vstd::prelude::*;
use crate::weekday::Weekday;

verus! {

/// A wall-clock time of day, hour:minute:second.
#[derive(Clone, Copy, PartialEq, Eq, Structural, Debug)]
pub struct TimeOfDay {
    pub hour: u8,
    pub minute: u8,
    pub second: u8,
}

impl TimeOfDay {
    /// The fields form a real time of day.
    pub open spec fn wf(self) -> bool {
        self.hour < 24 && self.minute < 60 && self.second < 60
    }

    /// Offset of this time of day from midnight, in milliseconds.
    pub open spec fn spec_offset_ms(self) -> int {
        (self.hour * 3600 + self.minute * 60 + self.second) * 1000
    }

    /// Offset of this time of day from midnight, in milliseconds.
    pub fn offset_ms(self) -> (r: i64)
        requires
            self.wf(),
        ensures
            r as int == self.spec_offset_ms(),
            0 <= r < crate::DAY_MS,
    {
        (self.hour as i64 * 3600 + self.minute as i64 * 60 + self.second as i64) * 1000
    }
}

/// Mathematical image of a timer: text as character sequences, the firing
/// bookkeeping as an unbounded instant.
pub ghost struct TimerModel {
    pub name: Seq<char>,
    pub msg: Seq<char>,
    pub week_day: Weekday,
    pub time: TimeOfDay,
    pub last_time: Option<int>,
}

/// One recurring weekly reminder.
#[derive(Debug)]
pub struct Timer {
    /// Free-text label; may be empty.
    pub name: String,
    /// Text delivered when the timer fires.
    pub msg: String,
    /// The weekday on which the timer recurs.
    pub week_day: Weekday,
    /// The wall-clock time of day at which the timer is due.
    pub time: TimeOfDay,
    /// Instant of the most recent firing, in local milliseconds since the
    /// epoch; `None` until the first firing.
    pub last_time: Option<i64>,
}

impl View for Timer {
    type V = TimerModel;

    open spec fn view(&self) -> TimerModel {
        TimerModel {
            name: self.name@,
            msg: self.msg@,
            week_day: self.week_day,
            time: self.time,
            last_time: match self.last_time {
                Some(t) => Some(t as int),
                None => None,
            },
        }
    }
}

/// A well-formed timer model: a real time of day, and a last firing (if any)
/// at a schedulable instant.
pub open spec fn timer_model_wf(t: TimerModel) -> bool {
    &&& t.time.wf()
    &&& match t.last_time {
        Some(l) => crate::valid_instant(l),
        None => true,
    }
}

impl Timer {
    /// The timer's fields are well formed.
    pub open spec fn wf(self) -> bool {
        timer_model_wf(self@)
    }

    /// An identical copy of the timer.
    pub fn duplicate(&self) -> (r: Timer)
        ensures
            r == *self,
    {
        Timer {
            name: self.name.clone(),
            msg: self.msg.clone(),
            week_day: self.week_day,
            time: self.time,
            last_time: self.last_time,
        }
    }
}

/// Whether `c` is an ASCII decimal digit.
pub open spec fn is_digit(c: char) -> bool {
    '0' <= c && c <= '9'
}

/// Numeric value of an ASCII decimal digit.
pub open spec fn digit_val(c: char) -> int {
    c as int - '0' as int
}

/// Whether `c` is an ASCII decimal digit.
pub fn char_is_digit(c: char) -> (r: bool)
    ensures
        r == is_digit(c),
{
    let v = c as u32;
    '0' as u32 <= v && v <= '9' as u32
}

/// Numeric value of an ASCII decimal digit.
pub fn digit_of(c: char) -> (d: u8)
    requires
        is_digit(c),
    ensures
        d as int == digit_val(c),
        d < 10,
{
    (c as u32 - '0' as u32) as u8
}

/// The time of day written `HH:MM:SS` (two digits each, in range), if `s` is
/// exactly of that shape.
pub open spec fn spec_parse_time(s: Seq<char>) -> Option<TimeOfDay> {
    if s.len() == 8 && is_digit(s[0]) && is_digit(s[1]) && s[2] == ':' && is_digit(s[3])
        && is_digit(s[4]) && s[5] == ':' && is_digit(s[6]) && is_digit(s[7]) {
        let t = TimeOfDay {
            hour: (digit_val(s[0]) * 10 + digit_val(s[1])) as u8,
            minute: (digit_val(s[3]) * 10 + digit_val(s[4])) as u8,
            second: (digit_val(s[6]) * 10 + digit_val(s[7])) as u8,
        };
        if t.wf() {
            Some(t)
        } else {
            None
        }
    } else {
        None
    }
}

/// Parse a time of day strictly from the form `HH:MM:SS`: exactly eight
/// characters, two digits per field, fields in range. `None` on anything
/// else.
pub fn parse_time(s: &str) -> (r: Option<TimeOfDay>)
    ensures
        r == spec_parse_time(s@),
        r is Some ==> r->0.wf(),
{
    let n = s.unicode_len();
    if n != 8 {
        return None;
    }
    let c0 = s.get_char(0);
    let c1 = s.get_char(1);
    let c2 = s.get_char(2);
    let c3 = s.get_char(3);
    let c4 = s.get_char(4);
    let c5 = s.get_char(5);
    let c6 = s.get_char(6);
    let c7 = s.get_char(7);
    if !(char_is_digit(c0) && char_is_digit(c1) && c2 == ':' && char_is_digit(c3)
        && char_is_digit(c4) && c5 == ':' && char_is_digit(c6) && char_is_digit(c7)) {
        return None;
    }
    let t = TimeOfDay {
        hour: digit_of(c0) * 10 + digit_of(c1),
        minute: digit_of(c3) * 10 + digit_of(c4),
        second: digit_of(c6) * 10 + digit_of(c7),
    };
    if t.hour < 24 && t.minute < 60 && t.second < 60 {
        Some(t)
    } else {
        None
    }
}

} // verus!
