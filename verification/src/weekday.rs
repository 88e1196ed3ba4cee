//! The seven weekdays, their canonical three-letter tags, and the total
//! parser from a tag back to the weekday.
use vstd::prelude::*;

verus! {

/// A day of the week. Parsed from the canonical three-letter tag; total.
#[derive(Clone, Copy, PartialEq, Eq, Structural, Debug)]
pub enum Weekday {
    Mon,
    Tue,
    Wed,
    Thu,
    Fri,
    Sat,
    Sun,
}

impl Weekday {
    /// Index of the weekday, Monday = 0 .. Sunday = 6.
    pub open spec fn spec_index(self) -> int {
        match self {
            Weekday::Mon => 0,
            Weekday::Tue => 1,
            Weekday::Wed => 2,
            Weekday::Thu => 3,
            Weekday::Fri => 4,
            Weekday::Sat => 5,
            Weekday::Sun => 6,
        }
    }

    /// Index of the weekday, Monday = 0 .. Sunday = 6.
    pub fn index(self) -> (i: u8)
        ensures
            i as int == self.spec_index(),
    {
        match self {
            Weekday::Mon => 0,
            Weekday::Tue => 1,
            Weekday::Wed => 2,
            Weekday::Thu => 3,
            Weekday::Fri => 4,
            Weekday::Sat => 5,
            Weekday::Sun => 6,
        }
    }

    /// The weekday with the given index, Monday = 0 .. Sunday = 6.
    pub open spec fn spec_from_index(i: int) -> Weekday {
        if i == 0 {
            Weekday::Mon
        } else if i == 1 {
            Weekday::Tue
        } else if i == 2 {
            Weekday::Wed
        } else if i == 3 {
            Weekday::Thu
        } else if i == 4 {
            Weekday::Fri
        } else if i == 5 {
            Weekday::Sat
        } else {
            Weekday::Sun
        }
    }

    /// The weekday with the given index, Monday = 0 .. Sunday = 6.
    pub fn from_index(i: u8) -> (w: Weekday)
        requires
            i < 7,
        ensures
            w == Weekday::spec_from_index(i as int),
            w.spec_index() == i as int,
    {
        if i == 0 {
            Weekday::Mon
        } else if i == 1 {
            Weekday::Tue
        } else if i == 2 {
            Weekday::Wed
        } else if i == 3 {
            Weekday::Thu
        } else if i == 4 {
            Weekday::Fri
        } else if i == 5 {
            Weekday::Sat
        } else {
            Weekday::Sun
        }
    }

    /// The canonical three-letter tag of the weekday.
    pub open spec fn spec_tag(self) -> Seq<char> {
        match self {
            Weekday::Mon => seq!['M', 'o', 'n'],
            Weekday::Tue => seq!['T', 'u', 'e'],
            Weekday::Wed => seq!['W', 'e', 'd'],
            Weekday::Thu => seq!['T', 'h', 'u'],
            Weekday::Fri => seq!['F', 'r', 'i'],
            Weekday::Sat => seq!['S', 'a', 't'],
            Weekday::Sun => seq!['S', 'u', 'n'],
        }
    }

    /// The canonical three-letter tag of the weekday.
    pub fn tag(self) -> (r: &'static str)
        ensures
            r@ == self.spec_tag(),
    {
        proof {
            reveal_strlit("Mon");
            reveal_strlit("Tue");
            reveal_strlit("Wed");
            reveal_strlit("Thu");
            reveal_strlit("Fri");
            reveal_strlit("Sat");
            reveal_strlit("Sun");
        }
        let r = match self {
            Weekday::Mon => "Mon",
            Weekday::Tue => "Tue",
            Weekday::Wed => "Wed",
            Weekday::Thu => "Thu",
            Weekday::Fri => "Fri",
            Weekday::Sat => "Sat",
            Weekday::Sun => "Sun",
        };
        proof {
            assert(r@ =~= self.spec_tag());
        }
        r
    }
}

/// The weekday whose canonical tag is `s`, if `s` is one of the seven tags.
pub open spec fn spec_parse_weekday(s: Seq<char>) -> Option<Weekday> {
    if s =~= Weekday::Mon.spec_tag() {
        Some(Weekday::Mon)
    } else if s =~= Weekday::Tue.spec_tag() {
        Some(Weekday::Tue)
    } else if s =~= Weekday::Wed.spec_tag() {
        Some(Weekday::Wed)
    } else if s =~= Weekday::Thu.spec_tag() {
        Some(Weekday::Thu)
    } else if s =~= Weekday::Fri.spec_tag() {
        Some(Weekday::Fri)
    } else if s =~= Weekday::Sat.spec_tag() {
        Some(Weekday::Sat)
    } else if s =~= Weekday::Sun.spec_tag() {
        Some(Weekday::Sun)
    } else {
        None
    }
}

/// Decide the weekday from three characters; `None` unless they are one of
/// the seven canonical tags.
fn weekday_of_chars(c0: char, c1: char, c2: char) -> (r: Option<Weekday>)
    ensures
        r == spec_parse_weekday(seq![c0, c1, c2]),
{
    let r = if c0 == 'M' && c1 == 'o' && c2 == 'n' {
        Some(Weekday::Mon)
    } else if c0 == 'T' && c1 == 'u' && c2 == 'e' {
        Some(Weekday::Tue)
    } else if c0 == 'W' && c1 == 'e' && c2 == 'd' {
        Some(Weekday::Wed)
    } else if c0 == 'T' && c1 == 'h' && c2 == 'u' {
        Some(Weekday::Thu)
    } else if c0 == 'F' && c1 == 'r' && c2 == 'i' {
        Some(Weekday::Fri)
    } else if c0 == 'S' && c1 == 'a' && c2 == 't' {
        Some(Weekday::Sat)
    } else if c0 == 'S' && c1 == 'u' && c2 == 'n' {
        Some(Weekday::Sun)
    } else {
        None
    };
    proof {
        assert(seq![c0, c1, c2].len() == 3);
    }
    r
}

/// Parse a weekday from its canonical three-letter tag; `None` on anything
/// else (wrong length, wrong case, any other text).
pub fn parse_weekday(s: &str) -> (r: Option<Weekday>)
    ensures
        r == spec_parse_weekday(s@),
{
    let n = s.unicode_len();
    if n != 3 {
        proof {
            assert(spec_parse_weekday(s@) is None) by {
                assert(Weekday::Mon.spec_tag().len() == 3);
            }
        }
        return None;
    }
    let c0 = s.get_char(0);
    let c1 = s.get_char(1);
    let c2 = s.get_char(2);
    proof {
        assert(s@ =~= seq![c0, c1, c2]);
    }
    weekday_of_chars(c0, c1, c2)
}

/// Parsing the canonical tag of any weekday gives that weekday back.
pub proof fn lemma_weekday_tag_round_trip(w: Weekday)
    ensures
        spec_parse_weekday(w.spec_tag()) == Some(w),
{
}

} // verus!
