//! The command handlers: turning already-tokenized command input into store
//! operations. Validation happens here — a timer enters the store only with
//! a parseable weekday, a valid time and a non-empty message — and a failed
//! validation leaves the store untouched.
use vstd::prelude::*;
use crate::store::{Store, store_after_add, timers_of};
use crate::timer::{TimeOfDay, Timer, TimerModel, spec_parse_time, parse_time};
use crate::weekday::{Weekday, spec_parse_weekday, parse_weekday};

verus! {

/// Why a reminder request was rejected. Each variant names the first field,
/// in reading order, that was missing or malformed.
#[derive(Clone, Copy, PartialEq, Eq, Structural, Debug)]
pub enum ParseError {
    /// The weekday token is missing.
    NoWeekday,
    /// The weekday token is not one of the seven canonical tags.
    BadWeekday,
    /// The time token is missing.
    NoTime,
    /// The time token is not a valid `HH:MM:SS` time.
    BadTime,
    /// The message token is missing or empty.
    NoMessage,
}

/// The tokens as character sequences.
pub open spec fn tokens_view(ts: Seq<String>) -> Seq<Seq<char>> {
    ts.map_values(|s: String| s@)
}

/// What a reminder request parses to: the weekday, the time of day and the
/// message, from the first three tokens — or the error naming the first
/// missing or malformed field. The message is the third token as it stands
/// and must be non-empty.
pub open spec fn spec_parse_request(tokens: Seq<Seq<char>>) -> Result<
    (Weekday, TimeOfDay, Seq<char>),
    ParseError,
> {
    if tokens.len() < 1 {
        Err(ParseError::NoWeekday)
    } else if spec_parse_weekday(tokens[0]) is None {
        Err(ParseError::BadWeekday)
    } else if tokens.len() < 2 {
        Err(ParseError::NoTime)
    } else if spec_parse_time(tokens[1]) is None {
        Err(ParseError::BadTime)
    } else if tokens.len() < 3 || tokens[2].len() == 0 {
        Err(ParseError::NoMessage)
    } else {
        Ok((spec_parse_weekday(tokens[0])->0, spec_parse_time(tokens[1])->0, tokens[2]))
    }
}

/// Parse a reminder request from its tokens: a weekday tag, an `HH:MM:SS`
/// time, and a non-empty message. Returns exactly what
/// `spec_parse_request` says for these tokens.
pub fn parse_request(tokens: &Vec<String>) -> (r: Result<(Weekday, TimeOfDay, String), ParseError>)
    ensures
        match r {
            Ok((w, t, m)) => spec_parse_request(tokens_view(tokens@)) == Ok::<
                (Weekday, TimeOfDay, Seq<char>),
                ParseError,
            >((w, t, m@)),
            Err(e) => spec_parse_request(tokens_view(tokens@)) == Err::<
                (Weekday, TimeOfDay, Seq<char>),
                ParseError,
            >(e),
        },
{
    if tokens.len() < 1 {
        return Err(ParseError::NoWeekday);
    }
    let w = match parse_weekday(tokens[0].as_str()) {
        Some(w) => w,
        None => {
            return Err(ParseError::BadWeekday);
        },
    };
    if tokens.len() < 2 {
        return Err(ParseError::NoTime);
    }
    let t = match parse_time(tokens[1].as_str()) {
        Some(t) => t,
        None => {
            return Err(ParseError::BadTime);
        },
    };
    if tokens.len() < 3 {
        return Err(ParseError::NoMessage);
    }
    let msg = tokens[2].clone();
    if msg.unicode_len() == 0 {
        return Err(ParseError::NoMessage);
    }
    Ok((w, t, msg))
}

/// The timer a successful reminder request registers: empty label, the
/// message, the weekday and time of day, and no firing yet.
pub open spec fn requested_timer(w: Weekday, t: TimeOfDay, msg: Seq<char>) -> TimerModel {
    TimerModel { name: Seq::empty(), msg: msg, week_day: w, time: t, last_time: None }
}

/// Handle a reminder registration: parse the tokens and, only if every field
/// validates, append the requested timer — empty label, no firing yet — to
/// `chat`'s list. On any validation failure the error says which field was
/// first at fault and the store is left exactly as it was.
pub fn set_reminder(store: &mut Store, chat: i64, tokens: &Vec<String>) -> (r: Result<
    (),
    ParseError,
>)
    requires
        old(store).wf(),
    ensures
        final(store).wf(),
        match r {
            Ok(()) => {
                &&& spec_parse_request(tokens_view(tokens@)) matches Ok(p)
                &&& final(store)@ == store_after_add(
                    old(store)@,
                    chat,
                    requested_timer(p.0, p.1, p.2),
                )
            },
            Err(e) => {
                &&& spec_parse_request(tokens_view(tokens@)) == Err::<
                    (Weekday, TimeOfDay, Seq<char>),
                    ParseError,
                >(e)
                &&& final(store)@ == old(store)@
            },
        },
{
    match parse_request(tokens) {
        Ok((w, t, msg)) => {
            let timer = Timer {
                name: String::new(),
                msg: msg,
                week_day: w,
                time: t,
                last_time: None,
            };
            store.add_timer(chat, timer);
            Ok(())
        },
        Err(e) => Err(e),
    }
}

/// A read-only snapshot of `chat`'s timers, for rendering a state reply.
pub fn query_state(store: &Store, chat: i64) -> (r: Vec<Timer>)
    requires
        store.wf(),
    ensures
        crate::store::timers_view(r@) == timers_of(store@, chat),
{
    store.get_timers(chat)
}

/// The reminder-related action a command token asks for.
#[derive(Clone, Copy, PartialEq, Eq, Structural, Debug)]
pub enum Command {
    /// Register a reminder from the following tokens.
    Remind,
    /// Reply with the chat's current reminder list.
    RemindState,
    /// Reply with the usage text.
    RemindHelp,
    /// Not a reminder command; nothing to do here.
    Other,
}

/// The action the first token of a message asks for.
pub open spec fn spec_classify(cmd: Seq<char>) -> Command {
    if cmd == "/remind"@ {
        Command::Remind
    } else if cmd == "/remind_state"@ {
        Command::RemindState
    } else if cmd == "/remind_help"@ {
        Command::RemindHelp
    } else {
        Command::Other
    }
}

/// Whether two strings hold the same characters.
pub(crate) fn str_eq(a: &str, b: &str) -> (r: bool)
    ensures
        r == (a@ == b@),
{
    let na = a.unicode_len();
    let nb = b.unicode_len();
    if na != nb {
        return false;
    }
    let mut i: usize = 0;
    while i < na
        invariant
            na == a@.len(),
            na == b@.len(),
            i <= na,
            forall|k: int| 0 <= k < i ==> a@[k] == b@[k],
        decreases na - i,
    {
        if a.get_char(i) != b.get_char(i) {
            proof {
                assert(a@[i as int] != b@[i as int]);
            }
            return false;
        }
        i = i + 1;
    }
    proof {
        assert(a@ =~= b@);
    }
    true
}

/// Classify the first token of a message: which reminder command it is, or
/// none.
pub fn classify_command(cmd: &str) -> (r: Command)
    ensures
        r == spec_classify(cmd@),
{
    if str_eq(cmd, "/remind") {
        Command::Remind
    } else if str_eq(cmd, "/remind_state") {
        Command::RemindState
    } else if str_eq(cmd, "/remind_help") {
        Command::RemindHelp
    } else {
        Command::Other
    }
}

/// The static usage text the help command replies with.
pub fn help_text() -> (r: &'static str)
    ensures
        r@ == "/remind <Weekday: 3 letters Mon, ...> HH:MM:SS"@,
{
    "/remind <Weekday: 3 letters Mon, ...> HH:MM:SS"
}

} // verus!
