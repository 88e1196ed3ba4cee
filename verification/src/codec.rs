//! The textual snapshot of the store, and its parser. The snapshot is a
//! single line of space-terminated fields: a `reminders` header, the chat
//! count, and per chat its identifier, its timer count and its timers; text
//! fields are length-prefixed so any message round-trips. Parsing inverts
//! encoding exactly, and rejects everything else.
use vstd::prelude::*;
use vstd::string::StringExecFns;
use crate::timer::{
    TimeOfDay,
    Timer,
    TimerModel,
    timer_model_wf,
    digit_val,
    is_digit,
    digit_of,
    char_is_digit,
    parse_time,
    spec_parse_time,
};
use crate::weekday::{Weekday, spec_parse_weekday};
use crate::store::{Store, StoreModel, chats_unique, entries_view, timers_view};

verus! {

/// The character of a decimal digit value.
pub open spec fn digit_char(d: int) -> char {
    ((d + 48) as u8) as char
}

/// The character of a decimal digit value.
pub fn digit_char_of(d: u8) -> (c: char)
    requires
        d < 10,
    ensures
        c == digit_char(d as int),
        is_digit(c),
        digit_val(c) == d as int,
{
    (d + 48) as char
}

/// The decimal digits of `n`, most significant first, no leading zeros.
pub open spec fn spec_enc_nat(n: nat) -> Seq<char>
    decreases n,
{
    if n < 10 {
        seq![digit_char(n as int)]
    } else {
        spec_enc_nat(n / 10).push(digit_char((n % 10) as int))
    }
}

/// Ten to the `k`th power.
pub open spec fn pow10(k: nat) -> nat
    decreases k,
{
    if k == 0 {
        1nat
    } else {
        10 * pow10((k - 1) as nat)
    }
}

/// Relies on `String::push`: appends exactly the one character.
#[verifier::external_body]
fn push_char(s: &mut String, c: char)
    ensures
        final(s)@ == old(s)@.push(c),
{
    s.push(c)
}

/// Append the decimal digits of `n`.
fn push_nat(s: &mut String, n: u64)
    ensures
        final(s)@ == old(s)@ + spec_enc_nat(n as nat),
    decreases n,
{
    if n < 10 {
        push_char(s, digit_char_of(n as u8));
        proof {
            assert(final(s)@ =~= old(s)@ + spec_enc_nat(n as nat));
        }
    } else {
        push_nat(s, n / 10);
        push_char(s, digit_char_of((n % 10) as u8));
        proof {
            assert(final(s)@ =~= old(s)@ + spec_enc_nat(n as nat));
        }
    }
}

/// A decimal number field: the digits, then one terminating space.
pub open spec fn spec_enc_nat_sp(n: nat) -> Seq<char> {
    spec_enc_nat(n).push(' ')
}

/// Append a decimal number field.
fn push_nat_sp(s: &mut String, n: u64)
    ensures
        final(s)@ == old(s)@ + spec_enc_nat_sp(n as nat),
{
    push_nat(s, n);
    push_char(s, ' ');
    proof {
        assert(final(s)@ =~= old(s)@ + spec_enc_nat_sp(n as nat));
    }
}

/// One step at a time, read decimal digits at `pos` into an accumulator
/// until a terminating space; fail at the end of input, on any other
/// character, and on a value that would not fit in 64 bits.
pub open spec fn spec_parse_nat_loop(s: Seq<char>, pos: int, acc: nat) -> Option<(nat, int)>
    decreases s.len() - pos,
{
    if pos < 0 || pos >= s.len() {
        None
    } else if s[pos] == ' ' {
        Some((acc, pos + 1))
    } else if is_digit(s[pos]) {
        if acc * 10 + digit_val(s[pos]) <= u64::MAX {
            spec_parse_nat_loop(s, pos + 1, (acc * 10 + digit_val(s[pos])) as nat)
        } else {
            None
        }
    } else {
        None
    }
}

/// The decimal number field at `pos`: at least one digit, then a space;
/// yields the value and the position after the space.
pub open spec fn spec_parse_nat(s: Seq<char>, pos: int) -> Option<(nat, int)> {
    if 0 <= pos < s.len() && is_digit(s[pos]) {
        spec_parse_nat_loop(s, pos, 0)
    } else {
        None
    }
}

/// Read the decimal number field at `pos`.
pub fn parse_nat_at(s: &str, pos: usize) -> (r: Option<(u64, usize)>)
    requires
        pos <= s@.len(),
    ensures
        match r {
            Some((v, p2)) => {
                &&& spec_parse_nat(s@, pos as int) == Some((v as nat, p2 as int))
                &&& pos < p2 <= s@.len()
            },
            None => spec_parse_nat(s@, pos as int) is None,
        },
{
    let n = s.unicode_len();
    if pos >= n {
        return None;
    }
    if !char_is_digit(s.get_char(pos)) {
        return None;
    }
    let mut acc: u64 = 0;
    let mut p = pos;
    loop
        invariant
            pos <= p <= n,
            n == s@.len(),
            spec_parse_nat(s@, pos as int) == spec_parse_nat_loop(s@, p as int, acc as nat),
        decreases n - p,
    {
        if p >= n {
            return None;
        }
        let c = s.get_char(p);
        if c == ' ' {
            return Some((acc, p + 1));
        }
        if !char_is_digit(c) {
            return None;
        }
        let d = digit_of(c);
        if acc > (u64::MAX - d as u64) / 10 {
            proof {
                assert(acc * 10 + digit_val(c) > u64::MAX) by (nonlinear_arith)
                    requires
                        acc > (u64::MAX - d as u64) / 10,
                        d == digit_val(c),
                        d < 10,
                        (u64::MAX - d as u64) / 10 == ((u64::MAX - d) as int) / 10,
                ;
            }
            return None;
        }
        proof {
            assert(acc * 10 + digit_val(c) <= u64::MAX) by (nonlinear_arith)
                requires
                    acc <= (u64::MAX - d as u64) / 10,
                    d == digit_val(c),
                    0 <= d < 10,
                    (u64::MAX - d as u64) / 10 == ((u64::MAX - d) as int) / 10,
            ;
        }
        acc = acc * 10 + d as u64;
        p = p + 1;
    }
}

/// Parsing the digits of `n` from any surrounding text multiplies the
/// accumulator past them and adds `n`, leaving the cursor after the digits.
proof fn lemma_parse_nat_digits(s: Seq<char>, pos: int, n: nat, acc: nat)
    requires
        0 <= pos,
        pos + spec_enc_nat(n).len() <= s.len(),
        s.subrange(pos, pos + spec_enc_nat(n).len() as int) == spec_enc_nat(n),
        acc * pow10(spec_enc_nat(n).len() as nat) + n <= u64::MAX,
    ensures
        spec_parse_nat_loop(s, pos, acc) == spec_parse_nat_loop(
            s,
            pos + spec_enc_nat(n).len() as int,
            acc * pow10(spec_enc_nat(n).len() as nat) + n,
        ),
    decreases n,
{
    let e = spec_enc_nat(n);
    if n < 10 {
        assert(s[pos] == e[0]);
        assert(is_digit(digit_char(n as int)) && digit_val(digit_char(n as int)) == n);
        assert(pow10(0) == 1);
        assert(pow10(1) == 10);
        assert(acc * 10 + n <= u64::MAX);
    } else {
        let e0 = spec_enc_nat(n / 10);
        let l0 = e0.len() as int;
        let d = digit_char((n % 10) as int);
        assert(e == e0.push(d));
        assert(e.len() == l0 + 1);
        assert(s.subrange(pos, pos + l0) =~= e0) by {
            assert forall|k: int| 0 <= k < l0 implies s.subrange(pos, pos + l0)[k] == e0[k] by {
                assert(s[pos + k] == e[k]);
            }
        }
        let acc1 = acc * pow10((l0 + 1) as nat) + n;
        let mid = acc * pow10(l0 as nat) + n / 10;
        assert(acc1 == mid * 10 + n % 10) by (nonlinear_arith)
            requires
                acc1 == acc * pow10((l0 + 1) as nat) + n,
                mid == acc * pow10(l0 as nat) + n / 10,
                pow10((l0 + 1) as nat) == 10 * pow10(l0 as nat),
                n == 10 * (n / 10) + n % 10,
        ;
        assert(mid <= u64::MAX) by {
            assert(mid >= 0);
            assert(mid * 10 <= acc1) by (nonlinear_arith)
                requires
                    acc1 == mid * 10 + n % 10,
                    n % 10 >= 0,
            ;
            assert(mid <= mid * 10) by (nonlinear_arith)
                requires
                    mid >= 0,
            ;
        }
        lemma_parse_nat_digits(s, pos, n / 10, acc);
        assert(spec_parse_nat_loop(s, pos, acc) == spec_parse_nat_loop(s, pos + l0, mid));
        assert(s[pos + l0] == e[l0]);
        assert(is_digit(d) && digit_val(d) == n % 10);
        assert(spec_parse_nat_loop(s, pos + l0, mid) == spec_parse_nat_loop(
            s,
            pos + l0 + 1,
            (mid * 10 + n % 10) as nat,
        ));
    }
}

/// Parsing a number field that encoding wrote gives the number back and
/// stops just past the terminating space.
pub proof fn lemma_parse_nat_round_trip(s: Seq<char>, pos: int, n: nat)
    requires
        0 <= pos,
        n <= u64::MAX,
        pos + spec_enc_nat_sp(n).len() <= s.len(),
        s.subrange(pos, pos + spec_enc_nat_sp(n).len() as int) == spec_enc_nat_sp(n),
    ensures
        spec_parse_nat(s, pos) == Some((n, pos + spec_enc_nat_sp(n).len() as int)),
{
    let e = spec_enc_nat(n);
    let l = e.len() as int;
    assert(s.subrange(pos, pos + l) =~= e) by {
        assert forall|k: int| 0 <= k < l implies s.subrange(pos, pos + l)[k] == e[k] by {
            assert(s[pos + k] == spec_enc_nat_sp(n)[k]);
        }
    }
    assert(pow10(0) == 1);
    lemma_enc_nat_first_digit(n);
    assert(s[pos] == e[0]);
    lemma_parse_nat_digits(s, pos, n, 0);
    assert(s[pos + l] == spec_enc_nat_sp(n)[l]);
    assert(s[pos + l] == ' ');
    assert(spec_parse_nat_loop(s, pos + l, n) == Some((n, pos + l + 1)));
}

/// An encoded number starts with a digit, and every character of it is a
/// digit.
proof fn lemma_enc_nat_first_digit(n: nat)
    ensures
        spec_enc_nat(n).len() >= 1,
        is_digit(spec_enc_nat(n)[0]),
    decreases n,
{
    if n >= 10 {
        lemma_enc_nat_first_digit(n / 10);
    }
}

/// A signed decimal number field: a minus sign for a negative value, the
/// digits of the magnitude, then one terminating space.
pub open spec fn spec_enc_int_sp(i: int) -> Seq<char> {
    if i < 0 {
        seq!['-'] + spec_enc_nat_sp((-i) as nat)
    } else {
        spec_enc_nat_sp(i as nat)
    }
}

/// The signed decimal number field at `pos`; fails on a value outside the
/// 64-bit signed range.
pub open spec fn spec_parse_int(s: Seq<char>, pos: int) -> Option<(int, int)> {
    if 0 <= pos < s.len() && s[pos] == '-' {
        match spec_parse_nat(s, pos + 1) {
            Some((m, p)) => if m <= 0x8000_0000_0000_0000 {
                Some((-(m as int), p))
            } else {
                None
            },
            None => None,
        }
    } else {
        match spec_parse_nat(s, pos) {
            Some((m, p)) => if m <= i64::MAX {
                Some((m as int, p))
            } else {
                None
            },
            None => None,
        }
    }
}

/// Append a signed decimal number field.
fn push_int_sp(s: &mut String, i: i64)
    ensures
        final(s)@ == old(s)@ + spec_enc_int_sp(i as int),
{
    if i < 0 {
        push_char(s, '-');
        let mag: u64 = ((-(i + 1)) as u64) + 1;
        proof {
            assert(mag as int == -(i as int));
        }
        push_nat_sp(s, mag);
        proof {
            assert(final(s)@ =~= old(s)@ + spec_enc_int_sp(i as int));
        }
    } else {
        push_nat_sp(s, i as u64);
    }
}

/// Read the signed decimal number field at `pos`.
pub fn parse_int_at(s: &str, pos: usize) -> (r: Option<(i64, usize)>)
    requires
        pos <= s@.len(),
    ensures
        match r {
            Some((v, p2)) => {
                &&& spec_parse_int(s@, pos as int) == Some((v as int, p2 as int))
                &&& pos < p2 <= s@.len()
            },
            None => spec_parse_int(s@, pos as int) is None,
        },
{
    let n = s.unicode_len();
    if pos < n && s.get_char(pos) == '-' {
        match parse_nat_at(s, pos + 1) {
            Some((m, p2)) => {
                if m <= 0x8000_0000_0000_0000 {
                    let v: i64 = if m == 0x8000_0000_0000_0000 {
                        i64::MIN
                    } else {
                        -(m as i64)
                    };
                    Some((v, p2))
                } else {
                    None
                }
            },
            None => None,
        }
    } else {
        match parse_nat_at(s, pos) {
            Some((m, p2)) => {
                if m <= i64::MAX as u64 {
                    Some((m as i64, p2))
                } else {
                    None
                }
            },
            None => None,
        }
    }
}

/// Parsing a signed number field that encoding wrote gives the number back.
pub proof fn lemma_parse_int_round_trip(s: Seq<char>, pos: int, i: i64)
    requires
        0 <= pos,
        pos + spec_enc_int_sp(i as int).len() <= s.len(),
        s.subrange(pos, pos + spec_enc_int_sp(i as int).len() as int) == spec_enc_int_sp(i as int),
    ensures
        spec_parse_int(s, pos) == Some((i as int, pos + spec_enc_int_sp(i as int).len() as int)),
{
    let e = spec_enc_int_sp(i as int);
    if i < 0 {
        let m = (-(i as int)) as nat;
        let em = spec_enc_nat_sp(m);
        assert(e[0] == '-');
        assert(s[pos] == e[0]) by {
            assert(s.subrange(pos, pos + e.len() as int)[0] == e[0]);
        }
        assert(s.subrange(pos + 1, pos + 1 + em.len() as int) =~= em) by {
            assert forall|k: int| 0 <= k < em.len() implies s.subrange(
                pos + 1,
                pos + 1 + em.len() as int,
            )[k] == em[k] by {
                assert(s[pos + 1 + k] == e[1 + k]);
            }
        }
        lemma_parse_nat_round_trip(s, pos + 1, m);
    } else {
        lemma_parse_nat_round_trip(s, pos, i as nat);
        lemma_enc_nat_first_digit(i as nat);
        assert(s[pos] == spec_enc_nat_sp(i as nat)[0]);
        assert(s[pos] != '-');
    }
}

/// A text field: the character count, then the characters themselves, then
/// one terminating space. The length prefix lets the text hold anything.
pub open spec fn spec_enc_str(t: Seq<char>) -> Seq<char> {
    spec_enc_nat_sp(t.len()) + t + seq![' ']
}

/// The text field at `pos`.
pub open spec fn spec_parse_str(s: Seq<char>, pos: int) -> Option<(Seq<char>, int)> {
    match spec_parse_nat(s, pos) {
        Some((len, p)) => if p + len + 1 <= s.len() && s[p + len as int] == ' ' {
            Some((s.subrange(p, p + len as int), p + len + 1))
        } else {
            None
        },
        None => None,
    }
}

/// Append a text field.
fn push_str_field(s: &mut String, t: &str)
    ensures
        final(s)@ == old(s)@ + spec_enc_str(t@),
{
    let len = t.unicode_len();
    push_nat_sp(s, len as u64);
    s.append(t);
    push_char(s, ' ');
    proof {
        assert(final(s)@ =~= old(s)@ + spec_enc_str(t@));
    }
}

/// Read the text field at `pos`.
pub fn parse_str_at(s: &str, pos: usize) -> (r: Option<(String, usize)>)
    requires
        pos <= s@.len(),
    ensures
        match r {
            Some((t, p2)) => {
                &&& spec_parse_str(s@, pos as int) == Some((t@, p2 as int))
                &&& pos < p2 <= s@.len()
            },
            None => spec_parse_str(s@, pos as int) is None,
        },
{
    let n = s.unicode_len();
    match parse_nat_at(s, pos) {
        Some((len64, p)) => {
            if len64 <= (n - p) as u64 && (n - p) as u64 - len64 >= 1 {
                let len = len64 as usize;
                let sub = s.substring_char(p, p + len);
                if s.get_char(p + len) == ' ' {
                    Some((String::from_str(sub), p + len + 1))
                } else {
                    None
                }
            } else {
                None
            }
        },
        None => None,
    }
}

/// Parsing a text field that encoding wrote gives the text back.
pub proof fn lemma_parse_str_round_trip(s: Seq<char>, pos: int, t: Seq<char>)
    requires
        0 <= pos,
        t.len() <= u64::MAX,
        pos + spec_enc_str(t).len() <= s.len(),
        s.subrange(pos, pos + spec_enc_str(t).len() as int) == spec_enc_str(t),
    ensures
        spec_parse_str(s, pos) == Some((t, pos + spec_enc_str(t).len() as int)),
{
    let e = spec_enc_str(t);
    let ep = spec_enc_nat_sp(t.len());
    let lp = ep.len() as int;
    assert(s.subrange(pos, pos + lp) =~= ep) by {
        assert forall|k: int| 0 <= k < lp implies s.subrange(pos, pos + lp)[k] == ep[k] by {
            assert(s[pos + k] == e[k]);
        }
    }
    lemma_parse_nat_round_trip(s, pos, t.len());
    let p = pos + lp;
    assert(s.subrange(p, p + t.len() as int) =~= t) by {
        assert forall|k: int| 0 <= k < t.len() implies s.subrange(p, p + t.len() as int)[k]
            == t[k] by {
            assert(s[p + k] == e[lp + k]);
        }
    }
    assert(s[p + t.len() as int] == e[lp + t.len() as int]);
    assert(s[p + t.len() as int] == ' ');
}

/// A weekday field: the canonical three-letter tag, then one space.
pub open spec fn spec_enc_weekday(w: Weekday) -> Seq<char> {
    w.spec_tag() + seq![' ']
}

/// The weekday field at `pos`.
pub open spec fn spec_parse_weekday_at(s: Seq<char>, pos: int) -> Option<(Weekday, int)> {
    if 0 <= pos && pos + 4 <= s.len() && s[pos + 3] == ' ' {
        match spec_parse_weekday(s.subrange(pos, pos + 3)) {
            Some(w) => Some((w, pos + 4)),
            None => None,
        }
    } else {
        None
    }
}

/// Append a weekday field.
fn push_weekday(s: &mut String, w: Weekday)
    ensures
        final(s)@ == old(s)@ + spec_enc_weekday(w),
{
    s.append(w.tag());
    push_char(s, ' ');
    proof {
        assert(final(s)@ =~= old(s)@ + spec_enc_weekday(w));
    }
}

/// Read the weekday field at `pos`.
pub fn parse_weekday_at(s: &str, pos: usize) -> (r: Option<(Weekday, usize)>)
    requires
        pos <= s@.len(),
    ensures
        match r {
            Some((w, p2)) => {
                &&& spec_parse_weekday_at(s@, pos as int) == Some((w, p2 as int))
                &&& pos < p2 <= s@.len()
            },
            None => spec_parse_weekday_at(s@, pos as int) is None,
        },
{
    let n = s.unicode_len();
    if n - pos < 4 {
        return None;
    }
    if s.get_char(pos + 3) != ' ' {
        return None;
    }
    let tag = s.substring_char(pos, pos + 3);
    match crate::weekday::parse_weekday(tag) {
        Some(w) => Some((w, pos + 4)),
        None => None,
    }
}

/// Parsing a weekday field that encoding wrote gives the weekday back.
pub proof fn lemma_parse_weekday_round_trip(s: Seq<char>, pos: int, w: Weekday)
    requires
        0 <= pos,
        pos + 4 <= s.len(),
        s.subrange(pos, pos + 4) == spec_enc_weekday(w),
    ensures
        spec_parse_weekday_at(s, pos) == Some((w, pos + 4)),
{
    let e = spec_enc_weekday(w);
    assert(w.spec_tag().len() == 3);
    assert(s.subrange(pos, pos + 3) =~= w.spec_tag()) by {
        assert forall|k: int| 0 <= k < 3 implies s.subrange(pos, pos + 3)[k]
            == w.spec_tag()[k] by {
            assert(s[pos + k] == e[k]);
        }
    }
    assert(s[pos + 3] == e[3]);
    crate::weekday::lemma_weekday_tag_round_trip(w);
}

/// The eight characters `HH:MM:SS` of a time of day.
pub open spec fn time_chars(t: TimeOfDay) -> Seq<char> {
    seq![
        digit_char(t.hour as int / 10),
        digit_char(t.hour as int % 10),
        ':',
        digit_char(t.minute as int / 10),
        digit_char(t.minute as int % 10),
        ':',
        digit_char(t.second as int / 10),
        digit_char(t.second as int % 10),
    ]
}

/// A time field: `HH:MM:SS`, then one space.
pub open spec fn spec_enc_time(t: TimeOfDay) -> Seq<char> {
    time_chars(t) + seq![' ']
}

/// The time field at `pos`.
pub open spec fn spec_parse_time_at(s: Seq<char>, pos: int) -> Option<(TimeOfDay, int)> {
    if 0 <= pos && pos + 9 <= s.len() && s[pos + 8] == ' ' {
        match spec_parse_time(s.subrange(pos, pos + 8)) {
            Some(t) => Some((t, pos + 9)),
            None => None,
        }
    } else {
        None
    }
}

/// Append a time field.
fn push_time(s: &mut String, t: TimeOfDay)
    requires
        t.wf(),
    ensures
        final(s)@ == old(s)@ + spec_enc_time(t),
{
    push_char(s, digit_char_of(t.hour / 10));
    push_char(s, digit_char_of(t.hour % 10));
    push_char(s, ':');
    push_char(s, digit_char_of(t.minute / 10));
    push_char(s, digit_char_of(t.minute % 10));
    push_char(s, ':');
    push_char(s, digit_char_of(t.second / 10));
    push_char(s, digit_char_of(t.second % 10));
    push_char(s, ' ');
    proof {
        assert(final(s)@ =~= old(s)@ + spec_enc_time(t));
    }
}

/// Read the time field at `pos`.
pub fn parse_time_at(s: &str, pos: usize) -> (r: Option<(TimeOfDay, usize)>)
    requires
        pos <= s@.len(),
    ensures
        match r {
            Some((t, p2)) => {
                &&& spec_parse_time_at(s@, pos as int) == Some((t, p2 as int))
                &&& t.wf()
                &&& pos < p2 <= s@.len()
            },
            None => spec_parse_time_at(s@, pos as int) is None,
        },
{
    let n = s.unicode_len();
    if n - pos < 9 {
        return None;
    }
    if s.get_char(pos + 8) != ' ' {
        return None;
    }
    let sub = s.substring_char(pos, pos + 8);
    match parse_time(sub) {
        Some(t) => Some((t, pos + 9)),
        None => None,
    }
}

/// Parsing a time field that encoding wrote gives the time back.
pub proof fn lemma_parse_time_round_trip(s: Seq<char>, pos: int, t: TimeOfDay)
    requires
        t.wf(),
        0 <= pos,
        pos + 9 <= s.len(),
        s.subrange(pos, pos + 9) == spec_enc_time(t),
    ensures
        spec_parse_time_at(s, pos) == Some((t, pos + 9)),
{
    let e = spec_enc_time(t);
    let tc = time_chars(t);
    assert(s.subrange(pos, pos + 8) =~= tc) by {
        assert forall|k: int| 0 <= k < 8 implies s.subrange(pos, pos + 8)[k] == tc[k] by {
            assert(s[pos + k] == e[k]);
        }
    }
    assert(s[pos + 8] == e[8]);
    vstd::arithmetic::div_mod::lemma_fundamental_div_mod(t.hour as int, 10);
    vstd::arithmetic::div_mod::lemma_fundamental_div_mod(t.minute as int, 10);
    vstd::arithmetic::div_mod::lemma_fundamental_div_mod(t.second as int, 10);
    assert(spec_parse_time(tc) == Some(t));
}

/// A last-firing field: `N` for a timer that has not fired, or `S` and the
/// firing instant; each piece space-terminated.
pub open spec fn spec_enc_last(l: Option<int>) -> Seq<char> {
    match l {
        None => seq!['N', ' '],
        Some(v) => seq!['S', ' '] + spec_enc_nat_sp(v as nat),
    }
}

/// The last-firing field at `pos`; an instant is accepted only in the range
/// the engine schedules against.
pub open spec fn spec_parse_last(s: Seq<char>, pos: int) -> Option<(Option<int>, int)> {
    if 0 <= pos && pos + 2 <= s.len() && s[pos + 1] == ' ' {
        if s[pos] == 'N' {
            Some((None, pos + 2))
        } else if s[pos] == 'S' {
            match spec_parse_nat(s, pos + 2) {
                Some((v, p)) => if v <= crate::MAX_INSTANT_MS {
                    Some((Some(v as int), p))
                } else {
                    None
                },
                None => None,
            }
        } else {
            None
        }
    } else {
        None
    }
}

/// Append a last-firing field.
fn push_last(s: &mut String, l: Option<i64>)
    requires
        match l {
            Some(v) => crate::valid_instant(v as int),
            None => true,
        },
    ensures
        final(s)@ == old(s)@ + spec_enc_last(
            match l {
                Some(v) => Some(v as int),
                None => None,
            },
        ),
{
    match l {
        None => {
            push_char(s, 'N');
            push_char(s, ' ');
            proof {
                assert(final(s)@ =~= old(s)@ + spec_enc_last(None));
            }
        },
        Some(v) => {
            push_char(s, 'S');
            push_char(s, ' ');
            push_nat_sp(s, v as u64);
            proof {
                assert(final(s)@ =~= old(s)@ + spec_enc_last(Some(v as int)));
            }
        },
    }
}

/// Read the last-firing field at `pos`.
pub fn parse_last_at(s: &str, pos: usize) -> (r: Option<(Option<i64>, usize)>)
    requires
        pos <= s@.len(),
    ensures
        match r {
            Some((l, p2)) => {
                &&& spec_parse_last(s@, pos as int) == Some(
                    (
                        match l {
                            Some(v) => Some(v as int),
                            None => None,
                        },
                        p2 as int,
                    ),
                )
                &&& match l {
                    Some(v) => crate::valid_instant(v as int),
                    None => true,
                }
                &&& pos < p2 <= s@.len()
            },
            None => spec_parse_last(s@, pos as int) is None,
        },
{
    let n = s.unicode_len();
    if n - pos < 2 {
        return None;
    }
    if s.get_char(pos + 1) != ' ' {
        return None;
    }
    let c = s.get_char(pos);
    if c == 'N' {
        Some((None, pos + 2))
    } else if c == 'S' {
        match parse_nat_at(s, pos + 2) {
            Some((v, p)) => {
                if v <= crate::MAX_INSTANT_MS as u64 {
                    Some((Some(v as i64), p))
                } else {
                    None
                }
            },
            None => None,
        }
    } else {
        None
    }
}

/// Parsing a last-firing field that encoding wrote gives the instant back.
pub proof fn lemma_parse_last_round_trip(s: Seq<char>, pos: int, l: Option<int>)
    requires
        0 <= pos,
        match l {
            Some(v) => crate::valid_instant(v),
            None => true,
        },
        pos + spec_enc_last(l).len() <= s.len(),
        s.subrange(pos, pos + spec_enc_last(l).len() as int) == spec_enc_last(l),
    ensures
        spec_parse_last(s, pos) == Some((l, pos + spec_enc_last(l).len() as int)),
{
    let e = spec_enc_last(l);
    assert(s[pos] == e[0]) by {
        assert(s.subrange(pos, pos + e.len() as int)[0] == e[0]);
    }
    assert(s[pos + 1] == e[1]);
    match l {
        None => {},
        Some(v) => {
            let em = spec_enc_nat_sp(v as nat);
            assert(s.subrange(pos + 2, pos + 2 + em.len() as int) =~= em) by {
                assert forall|k: int| 0 <= k < em.len() implies s.subrange(
                    pos + 2,
                    pos + 2 + em.len() as int,
                )[k] == em[k] by {
                    assert(s[pos + 2 + k] == e[2 + k]);
                }
            }
            lemma_parse_nat_round_trip(s, pos + 2, v as nat);
        },
    }
}

/// A timer model the snapshot can carry: well formed, with text that fits a
/// 64-bit length prefix.
pub open spec fn timer_encodable(t: TimerModel) -> bool {
    &&& timer_model_wf(t)
    &&& t.name.len() <= u64::MAX
    &&& t.msg.len() <= u64::MAX
}

/// A timer record: label, message, weekday, time, last firing.
pub open spec fn spec_enc_timer(t: TimerModel) -> Seq<char> {
    spec_enc_str(t.name) + spec_enc_str(t.msg) + spec_enc_weekday(t.week_day) + spec_enc_time(
        t.time,
    ) + spec_enc_last(t.last_time)
}

/// The timer record at `pos`.
pub open spec fn spec_parse_timer(s: Seq<char>, pos: int) -> Option<(TimerModel, int)> {
    match spec_parse_str(s, pos) {
        Some((name, p1)) => match spec_parse_str(s, p1) {
            Some((msg, p2)) => match spec_parse_weekday_at(s, p2) {
                Some((w, p3)) => match spec_parse_time_at(s, p3) {
                    Some((t, p4)) => match spec_parse_last(s, p4) {
                        Some((l, p5)) => Some(
                            (
                                TimerModel {
                                    name: name,
                                    msg: msg,
                                    week_day: w,
                                    time: t,
                                    last_time: l,
                                },
                                p5,
                            ),
                        ),
                        None => None,
                    },
                    None => None,
                },
                None => None,
            },
            None => None,
        },
        None => None,
    }
}

/// Append a timer record.
fn push_timer(s: &mut String, t: &Timer)
    requires
        t.wf(),
    ensures
        final(s)@ == old(s)@ + spec_enc_timer(t@),
{
    push_str_field(s, t.name.as_str());
    push_str_field(s, t.msg.as_str());
    push_weekday(s, t.week_day);
    push_time(s, t.time);
    push_last(s, t.last_time);
    proof {
        assert(final(s)@ =~= old(s)@ + spec_enc_timer(t@));
    }
}

/// Read the timer record at `pos`.
pub fn parse_timer_at(s: &str, pos: usize) -> (r: Option<(Timer, usize)>)
    requires
        pos <= s@.len(),
    ensures
        match r {
            Some((t, p2)) => {
                &&& spec_parse_timer(s@, pos as int) == Some((t@, p2 as int))
                &&& t.wf()
                &&& pos < p2 <= s@.len()
            },
            None => spec_parse_timer(s@, pos as int) is None,
        },
{
    let (name, p1) = match parse_str_at(s, pos) {
        Some(x) => x,
        None => {
            return None;
        },
    };
    let (msg, p2) = match parse_str_at(s, p1) {
        Some(x) => x,
        None => {
            return None;
        },
    };
    let (w, p3) = match parse_weekday_at(s, p2) {
        Some(x) => x,
        None => {
            return None;
        },
    };
    let (t, p4) = match parse_time_at(s, p3) {
        Some(x) => x,
        None => {
            return None;
        },
    };
    let (l, p5) = match parse_last_at(s, p4) {
        Some(x) => x,
        None => {
            return None;
        },
    };
    Some((Timer { name: name, msg: msg, week_day: w, time: t, last_time: l }, p5))
}

/// Parsing a timer record that encoding wrote gives the timer back.
pub proof fn lemma_parse_timer_round_trip(s: Seq<char>, pos: int, t: TimerModel)
    requires
        timer_encodable(t),
        0 <= pos,
        pos + spec_enc_timer(t).len() <= s.len(),
        s.subrange(pos, pos + spec_enc_timer(t).len() as int) == spec_enc_timer(t),
    ensures
        spec_parse_timer(s, pos) == Some((t, pos + spec_enc_timer(t).len() as int)),
{
    let e = spec_enc_timer(t);
    let e1 = spec_enc_str(t.name);
    let e2 = spec_enc_str(t.msg);
    let e3 = spec_enc_weekday(t.week_day);
    let e4 = spec_enc_time(t.time);
    let e5 = spec_enc_last(t.last_time);
    let l1 = e1.len() as int;
    let l2 = e2.len() as int;
    let l3 = e3.len() as int;
    let l4 = e4.len() as int;
    let l5 = e5.len() as int;
    assert(s.subrange(pos, pos + l1) =~= e1) by {
        assert forall|k: int| 0 <= k < l1 implies s.subrange(pos, pos + l1)[k] == e1[k] by {
            assert(s.subrange(pos, pos + e.len() as int)[k] == e[k]);
            assert(e[k] == e1[k]);
        }
    }
    lemma_parse_str_round_trip(s, pos, t.name);
    let p1 = pos + l1;
    assert(s.subrange(p1, p1 + l2) =~= e2) by {
        assert forall|k: int| 0 <= k < l2 implies s.subrange(p1, p1 + l2)[k] == e2[k] by {
            assert(s.subrange(pos, pos + e.len() as int)[l1 + k] == e[l1 + k]);
            assert(e[l1 + k] == e2[k]);
        }
    }
    lemma_parse_str_round_trip(s, p1, t.msg);
    let p2 = p1 + l2;
    assert(t.week_day.spec_tag().len() == 3);
    assert(s.subrange(p2, p2 + l3) =~= e3) by {
        assert forall|k: int| 0 <= k < l3 implies s.subrange(p2, p2 + l3)[k] == e3[k] by {
            assert(s.subrange(pos, pos + e.len() as int)[l1 + l2 + k] == e[l1 + l2 + k]);
            assert(e[l1 + l2 + k] == e3[k]);
        }
    }
    lemma_parse_weekday_round_trip(s, p2, t.week_day);
    let p3 = p2 + l3;
    assert(s.subrange(p3, p3 + l4) =~= e4) by {
        assert forall|k: int| 0 <= k < l4 implies s.subrange(p3, p3 + l4)[k] == e4[k] by {
            assert(s.subrange(pos, pos + e.len() as int)[l1 + l2 + l3 + k] == e[l1 + l2 + l3
                + k]);
            assert(e[l1 + l2 + l3 + k] == e4[k]);
        }
    }
    lemma_parse_time_round_trip(s, p3, t.time);
    let p4 = p3 + l4;
    assert(s.subrange(p4, p4 + l5) =~= e5) by {
        assert forall|k: int| 0 <= k < l5 implies s.subrange(p4, p4 + l5)[k] == e5[k] by {
            assert(s.subrange(pos, pos + e.len() as int)[l1 + l2 + l3 + l4 + k] == e[l1 + l2 + l3
                + l4 + k]);
            assert(e[l1 + l2 + l3 + l4 + k] == e5[k]);
        }
    }
    lemma_parse_last_round_trip(s, p4, t.last_time);
}

/// The timer records of a list, in order.
pub open spec fn spec_enc_timers(ts: Seq<TimerModel>) -> Seq<char>
    decreases ts.len(),
{
    if ts.len() == 0 {
        Seq::empty()
    } else {
        spec_enc_timer(ts[0]) + spec_enc_timers(ts.drop_first())
    }
}

/// Encoding a list with one more timer at the end appends that timer's
/// record.
proof fn lemma_enc_timers_snoc(ts: Seq<TimerModel>, t: TimerModel)
    ensures
        spec_enc_timers(ts.push(t)) == spec_enc_timers(ts) + spec_enc_timer(t),
    decreases ts.len(),
{
    if ts.len() == 0 {
        assert(ts.push(t)[0] == t);
        assert(ts.push(t).drop_first() =~= Seq::<TimerModel>::empty());
        assert(spec_enc_timers(Seq::<TimerModel>::empty()) == Seq::<char>::empty());
        assert(ts =~= Seq::<TimerModel>::empty());
        assert(spec_enc_timers(ts.push(t)) =~= spec_enc_timers(ts) + spec_enc_timer(t));
    } else {
        assert(ts.push(t)[0] == ts[0]);
        assert(ts.push(t).drop_first() =~= ts.drop_first().push(t));
        lemma_enc_timers_snoc(ts.drop_first(), t);
        assert(spec_enc_timers(ts.push(t)) == spec_enc_timer(ts[0]) + spec_enc_timers(
            ts.drop_first().push(t),
        ));
        assert(spec_enc_timers(ts.push(t)) =~= spec_enc_timers(ts) + spec_enc_timer(t));
    }
}

/// Exactly `k` timer records, one after the other, starting at `pos`.
pub open spec fn spec_parse_timers(s: Seq<char>, pos: int, k: nat) -> Option<
    (Seq<TimerModel>, int),
>
    decreases k,
{
    if k == 0 {
        Some((Seq::empty(), pos))
    } else {
        match spec_parse_timer(s, pos) {
            Some((t, p)) => match spec_parse_timers(s, p, (k - 1) as nat) {
                Some((ts, p2)) => Some((seq![t] + ts, p2)),
                None => None,
            },
            None => None,
        }
    }
}

/// Parsing the records of a whole list that encoding wrote gives the list
/// back.
pub proof fn lemma_parse_timers_round_trip(s: Seq<char>, pos: int, ts: Seq<TimerModel>)
    requires
        forall|k: int| 0 <= k < ts.len() ==> timer_encodable(#[trigger] ts[k]),
        0 <= pos,
        pos + spec_enc_timers(ts).len() <= s.len(),
        s.subrange(pos, pos + spec_enc_timers(ts).len() as int) == spec_enc_timers(ts),
    ensures
        spec_parse_timers(s, pos, ts.len()) == Some(
            (ts, pos + spec_enc_timers(ts).len() as int),
        ),
    decreases ts.len(),
{
    if ts.len() == 0 {
        assert(ts =~= Seq::<TimerModel>::empty());
    } else {
        let e = spec_enc_timers(ts);
        let e0 = spec_enc_timer(ts[0]);
        let l0 = e0.len() as int;
        let rest = spec_enc_timers(ts.drop_first());
        assert(s.subrange(pos, pos + l0) =~= e0) by {
            assert forall|k: int| 0 <= k < l0 implies s.subrange(pos, pos + l0)[k] == e0[k] by {
                assert(s.subrange(pos, pos + e.len() as int)[k] == e[k]);
                assert(e[k] == e0[k]);
            }
        }
        lemma_parse_timer_round_trip(s, pos, ts[0]);
        let p = pos + l0;
        assert(s.subrange(p, p + rest.len() as int) =~= rest) by {
            assert forall|k: int| 0 <= k < rest.len() implies s.subrange(
                p,
                p + rest.len() as int,
            )[k] == rest[k] by {
                assert(s.subrange(pos, pos + e.len() as int)[l0 + k] == e[l0 + k]);
                assert(e[l0 + k] == rest[k]);
            }
        }
        assert(forall|k: int|
            0 <= k < ts.drop_first().len() ==> timer_encodable(#[trigger] ts.drop_first()[k]));
        lemma_parse_timers_round_trip(s, p, ts.drop_first());
        assert(seq![ts[0]] + ts.drop_first() =~= ts);
    }
}

/// A store entry the snapshot can carry.
pub open spec fn entry_encodable(e: (i64, Seq<TimerModel>)) -> bool {
    &&& e.1.len() <= u64::MAX
    &&& forall|k: int| 0 <= k < e.1.len() ==> timer_encodable(#[trigger] e.1[k])
}

/// A chat entry: the chat identifier, the timer count, then the timers.
pub open spec fn spec_enc_entry(e: (i64, Seq<TimerModel>)) -> Seq<char> {
    spec_enc_int_sp(e.0 as int) + spec_enc_nat_sp(e.1.len()) + spec_enc_timers(e.1)
}

/// The chat entry at `pos`.
pub open spec fn spec_parse_entry(s: Seq<char>, pos: int) -> Option<((i64, Seq<TimerModel>), int)> {
    match spec_parse_int(s, pos) {
        Some((c, p1)) => match spec_parse_nat(s, p1) {
            Some((k, p2)) => match spec_parse_timers(s, p2, k) {
                Some((ts, p3)) => Some(((c as i64, ts), p3)),
                None => None,
            },
            None => None,
        },
        None => None,
    }
}

/// Parsing a chat entry that encoding wrote gives the entry back.
pub proof fn lemma_parse_entry_round_trip(s: Seq<char>, pos: int, e: (i64, Seq<TimerModel>))
    requires
        entry_encodable(e),
        0 <= pos,
        pos + spec_enc_entry(e).len() <= s.len(),
        s.subrange(pos, pos + spec_enc_entry(e).len() as int) == spec_enc_entry(e),
    ensures
        spec_parse_entry(s, pos) == Some((e, pos + spec_enc_entry(e).len() as int)),
{
    let enc = spec_enc_entry(e);
    let e1 = spec_enc_int_sp(e.0 as int);
    let e2 = spec_enc_nat_sp(e.1.len());
    let e3 = spec_enc_timers(e.1);
    let l1 = e1.len() as int;
    let l2 = e2.len() as int;
    assert(s.subrange(pos, pos + l1) =~= e1) by {
        assert forall|k: int| 0 <= k < l1 implies s.subrange(pos, pos + l1)[k] == e1[k] by {
            assert(s.subrange(pos, pos + enc.len() as int)[k] == enc[k]);
            assert(enc[k] == e1[k]);
        }
    }
    lemma_parse_int_round_trip(s, pos, e.0);
    let p1 = pos + l1;
    assert(s.subrange(p1, p1 + l2) =~= e2) by {
        assert forall|k: int| 0 <= k < l2 implies s.subrange(p1, p1 + l2)[k] == e2[k] by {
            assert(s.subrange(pos, pos + enc.len() as int)[l1 + k] == enc[l1 + k]);
            assert(enc[l1 + k] == e2[k]);
        }
    }
    lemma_parse_nat_round_trip(s, p1, e.1.len());
    let p2 = p1 + l2;
    assert(s.subrange(p2, p2 + e3.len() as int) =~= e3) by {
        assert forall|k: int| 0 <= k < e3.len() implies s.subrange(
            p2,
            p2 + e3.len() as int,
        )[k] == e3[k] by {
            assert(s.subrange(pos, pos + enc.len() as int)[l1 + l2 + k] == enc[l1 + l2 + k]);
            assert(enc[l1 + l2 + k] == e3[k]);
        }
    }
    lemma_parse_timers_round_trip(s, p2, e.1);
    assert((e.0 as int) as i64 == e.0);
}

/// The chat entries of a store, in order.
pub open spec fn spec_enc_entries(v: StoreModel) -> Seq<char>
    decreases v.len(),
{
    if v.len() == 0 {
        Seq::empty()
    } else {
        spec_enc_entry(v[0]) + spec_enc_entries(v.drop_first())
    }
}

/// Encoding a store with one more entry at the end appends that entry.
proof fn lemma_enc_entries_snoc(v: StoreModel, e: (i64, Seq<TimerModel>))
    ensures
        spec_enc_entries(v.push(e)) == spec_enc_entries(v) + spec_enc_entry(e),
    decreases v.len(),
{
    if v.len() == 0 {
        assert(v.push(e)[0] == e);
        assert(v.push(e).drop_first() =~= StoreModel::empty());
        assert(spec_enc_entries(StoreModel::empty()) == Seq::<char>::empty());
        assert(v =~= StoreModel::empty());
        assert(spec_enc_entries(v.push(e)) =~= spec_enc_entries(v) + spec_enc_entry(e));
    } else {
        assert(v.push(e)[0] == v[0]);
        assert(v.push(e).drop_first() =~= v.drop_first().push(e));
        lemma_enc_entries_snoc(v.drop_first(), e);
        assert(spec_enc_entries(v.push(e)) == spec_enc_entry(v[0]) + spec_enc_entries(
            v.drop_first().push(e),
        ));
        assert(spec_enc_entries(v.push(e)) =~= spec_enc_entries(v) + spec_enc_entry(e));
    }
}

/// Exactly `k` chat entries, one after the other, starting at `pos`.
pub open spec fn spec_parse_entries(s: Seq<char>, pos: int, k: nat) -> Option<(StoreModel, int)>
    decreases k,
{
    if k == 0 {
        Some((StoreModel::empty(), pos))
    } else {
        match spec_parse_entry(s, pos) {
            Some((e, p)) => match spec_parse_entries(s, p, (k - 1) as nat) {
                Some((v, p2)) => Some((seq![e] + v, p2)),
                None => None,
            },
            None => None,
        }
    }
}

/// Parsing the entries of a whole store that encoding wrote gives the store
/// back.
pub proof fn lemma_parse_entries_round_trip(s: Seq<char>, pos: int, v: StoreModel)
    requires
        forall|i: int| 0 <= i < v.len() ==> entry_encodable(#[trigger] v[i]),
        0 <= pos,
        pos + spec_enc_entries(v).len() <= s.len(),
        s.subrange(pos, pos + spec_enc_entries(v).len() as int) == spec_enc_entries(v),
    ensures
        spec_parse_entries(s, pos, v.len()) == Some(
            (v, pos + spec_enc_entries(v).len() as int),
        ),
    decreases v.len(),
{
    if v.len() == 0 {
        assert(v =~= StoreModel::empty());
    } else {
        let e = spec_enc_entries(v);
        let e0 = spec_enc_entry(v[0]);
        let l0 = e0.len() as int;
        let rest = spec_enc_entries(v.drop_first());
        assert(s.subrange(pos, pos + l0) =~= e0) by {
            assert forall|k: int| 0 <= k < l0 implies s.subrange(pos, pos + l0)[k] == e0[k] by {
                assert(s.subrange(pos, pos + e.len() as int)[k] == e[k]);
                assert(e[k] == e0[k]);
            }
        }
        lemma_parse_entry_round_trip(s, pos, v[0]);
        let p = pos + l0;
        assert(s.subrange(p, p + rest.len() as int) =~= rest) by {
            assert forall|k: int| 0 <= k < rest.len() implies s.subrange(
                p,
                p + rest.len() as int,
            )[k] == rest[k] by {
                assert(s.subrange(pos, pos + e.len() as int)[l0 + k] == e[l0 + k]);
                assert(e[l0 + k] == rest[k]);
            }
        }
        assert(forall|i: int|
            0 <= i < v.drop_first().len() ==> entry_encodable(#[trigger] v.drop_first()[i]));
        lemma_parse_entries_round_trip(s, p, v.drop_first());
        assert(seq![v[0]] + v.drop_first() =~= v);
    }
}

/// A store model the snapshot can carry.
pub open spec fn store_encodable(v: StoreModel) -> bool {
    &&& v.len() <= u64::MAX
    &&& forall|i: int| 0 <= i < v.len() ==> entry_encodable(#[trigger] v[i])
}

/// The whole snapshot: the `reminders` header, the chat count, the entries.
pub open spec fn spec_enc_store(v: StoreModel) -> Seq<char> {
    "reminders "@ + spec_enc_nat_sp(v.len()) + spec_enc_entries(v)
}

/// The store a snapshot holds: header, chat count, exactly that many
/// entries filling the whole text, no chat twice. Anything else is
/// rejected.
pub open spec fn spec_parse_store(s: Seq<char>) -> Option<StoreModel> {
    if s.len() >= 10 && s.subrange(0, 10) == "reminders "@ {
        match spec_parse_nat(s, 10) {
            Some((k, p)) => match spec_parse_entries(s, p, k) {
                Some((v, p2)) => if p2 == s.len() && chats_unique(v) {
                    Some(v)
                } else {
                    None
                },
                None => None,
            },
            None => None,
        }
    } else {
        None
    }
}

/// Serialize the whole store into one snapshot.
pub fn encode_store(store: &Store) -> (r: String)
    requires
        store.wf(),
    ensures
        r@ == spec_enc_store(store@),
{
    let ghost v = store@;
    let mut out = String::new();
    out.append("reminders ");
    let n = store.chat_count();
    push_nat_sp(&mut out, n as u64);
    let ghost base = "reminders "@ + spec_enc_nat_sp(v.len());
    proof {
        assert(out@ =~= base + spec_enc_entries(v.take(0)));
    }
    let mut i: usize = 0;
    while i < n
        invariant
            store.wf(),
            v == store@,
            n == v.len(),
            i <= n,
            base == "reminders "@ + spec_enc_nat_sp(v.len()),
            out@ == base + spec_enc_entries(v.take(i as int)),
        decreases n - i,
    {
        let ghost gi = i as int;
        let e = store.entry_at(i);
        let ghost tsv = v[gi].1;
        push_int_sp(&mut out, e.0);
        let m = e.1.len();
        push_nat_sp(&mut out, m as u64);
        let ghost entry_base = out@;
        proof {
            assert(timers_view(e.1@).len() == e.1@.len());
            assert(out@ =~= entry_base + spec_enc_timers(tsv.take(0)));
        }
        let mut j: usize = 0;
        while j < m
            invariant
                store.wf(),
                v == store@,
                i < n,
                n == v.len(),
                gi == i as int,
                timers_view(e.1@) == tsv,
                tsv == v[gi].1,
                m == e.1.len(),
                j <= m,
                out@ == entry_base + spec_enc_timers(tsv.take(j as int)),
            decreases m - j,
        {
            let ghost gj = j as int;
            let t = &e.1[j];
            proof {
                assert(t@ == tsv[gj]);
                assert(timer_model_wf(v[gi].1[gj]));
            }
            push_timer(&mut out, t);
            proof {
                lemma_enc_timers_snoc(tsv.take(gj), tsv[gj]);
                assert(tsv.take(gj + 1) =~= tsv.take(gj).push(tsv[gj]));
                assert(out@ =~= entry_base + spec_enc_timers(tsv.take(gj + 1)));
            }
            j = j + 1;
        }
        proof {
            assert(tsv.take(m as int) =~= tsv);
            assert(entry_base =~= base + spec_enc_entries(v.take(gi)) + spec_enc_int_sp(
                v[gi].0 as int,
            ) + spec_enc_nat_sp(tsv.len()));
            lemma_enc_entries_snoc(v.take(gi), v[gi]);
            assert(v.take(gi + 1) =~= v.take(gi).push(v[gi]));
            assert(out@ =~= base + spec_enc_entries(v.take(gi + 1)));
        }
        i = i + 1;
    }
    proof {
        assert(v.take(n as int) =~= v);
        assert(out@ =~= spec_enc_store(v));
    }
    out
}

/// Read the chat entry at `pos`: identifier, timer count, timers.
fn parse_entry_at(s: &str, pos: usize) -> (r: Option<((i64, Vec<Timer>), usize)>)
    requires
        pos <= s@.len(),
    ensures
        match r {
            Some((e, p2)) => {
                &&& spec_parse_entry(s@, pos as int) == Some(((e.0, timers_view(e.1@)), p2 as int))
                &&& forall|k: int|
                    0 <= k < e.1@.len() ==> timer_model_wf(#[trigger] timers_view(e.1@)[k])
                &&& pos < p2 <= s@.len()
            },
            None => spec_parse_entry(s@, pos as int) is None,
        },
{
    let (chat, p1) = match parse_int_at(s, pos) {
        Some(x) => x,
        None => {
            return None;
        },
    };
    let (k, p2) = match parse_nat_at(s, p1) {
        Some(x) => x,
        None => {
            return None;
        },
    };
    let ghost k0 = k as nat;
    let ghost p0 = p2 as int;
    let mut ts: Vec<Timer> = Vec::new();
    let mut p = p2;
    let mut j: u64 = 0;
    proof {
        assert(timers_view(ts@) =~= Seq::<TimerModel>::empty());
    }
    while j < k
        invariant
            j <= k,
            p0 == p2 as int,
            k0 == k as nat,
            pos < p2 <= p <= s@.len(),
            spec_parse_int(s@, pos as int) == Some((chat as int, p1 as int)),
            spec_parse_nat(s@, p1 as int) == Some((k as nat, p2 as int)),
            forall|x: int| 0 <= x < ts@.len() ==> timer_model_wf(#[trigger] timers_view(ts@)[x]),
            spec_parse_timers(s@, p0, k0) == match spec_parse_timers(
                s@,
                p as int,
                (k - j) as nat,
            ) {
                Some((rest, pe)) => Some::<(Seq<TimerModel>, int)>(
                    (timers_view(ts@) + rest, pe),
                ),
                None => None::<(Seq<TimerModel>, int)>,
            },
        decreases k - j,
    {
        let ghost ts_pre = timers_view(ts@);
        match parse_timer_at(s, p) {
            Some((t, pn)) => {
                ts.push(t);
                proof {
                    assert(timers_view(ts@) =~= ts_pre.push(t@));
                    assert forall|rest: Seq<TimerModel>|
                        true implies ts_pre + (seq![t@] + rest) =~= ts_pre.push(t@) + rest by {}
                    assert(spec_parse_timers(s@, p0, k0) == match spec_parse_timers(
                        s@,
                        pn as int,
                        (k - j - 1) as nat,
                    ) {
                        Some((rest, pe)) => Some::<(Seq<TimerModel>, int)>(
                            (timers_view(ts@) + rest, pe),
                        ),
                        None => None::<(Seq<TimerModel>, int)>,
                    });
                }
                p = pn;
            },
            None => {
                proof {
                    assert((k - j) as nat != 0);
                    assert(spec_parse_timers(s@, p as int, (k - j) as nat) is None);
                    assert(spec_parse_timers(s@, p0, k0) is None);
                    assert(spec_parse_entry(s@, pos as int) is None);
                }
                return None;
            },
        }
        j = j + 1;
    }
    proof {
        assert(spec_parse_timers(s@, p as int, 0) == Some::<(Seq<TimerModel>, int)>(
            (Seq::empty(), p as int),
        ));
        assert(timers_view(ts@) + Seq::<TimerModel>::empty() =~= timers_view(ts@));
        assert(spec_parse_timers(s@, p0, k0) == Some::<(Seq<TimerModel>, int)>(
            (timers_view(ts@), p as int),
        ));
    }
    Some(((chat, ts), p))
}

/// Parse a whole snapshot back into a store; `None` on any text that
/// encoding could not have written.
pub fn parse_store(s: &str) -> (r: Option<Store>)
    ensures
        match r {
            Some(store) => {
                &&& spec_parse_store(s@) == Some(store@)
                &&& store.wf()
            },
            None => spec_parse_store(s@) is None,
        },
{
    let n = s.unicode_len();
    if n < 10 {
        return None;
    }
    let head = s.substring_char(0, 10);
    if !crate::commands::str_eq(head, "reminders ") {
        return None;
    }
    let (k, p) = match parse_nat_at(s, 10) {
        Some(x) => x,
        None => {
            return None;
        },
    };
    let ghost k0 = k as nat;
    let ghost p0 = p as int;
    let mut es: Vec<(i64, Vec<Timer>)> = Vec::new();
    let mut pos = p;
    let mut i: u64 = 0;
    proof {
        assert(entries_view(es@) =~= StoreModel::empty());
    }
    while i < k
        invariant
            i <= k,
            p0 == p as int,
            k0 == k as nat,
            p <= pos <= s@.len(),
            s@.len() >= 10,
            s@.subrange(0, 10) == "reminders "@,
            spec_parse_nat(s@, 10) == Some((k as nat, p as int)),
            forall|x: int, y: int|
                0 <= x < es@.len() && 0 <= y < entries_view(es@)[x].1.len() ==> timer_model_wf(
                    #[trigger] entries_view(es@)[x].1[y],
                ),
            spec_parse_entries(s@, p0, k0) == match spec_parse_entries(
                s@,
                pos as int,
                (k - i) as nat,
            ) {
                Some((rest, pe)) => Some::<(StoreModel, int)>((entries_view(es@) + rest, pe)),
                None => None::<(StoreModel, int)>,
            },
        decreases k - i,
    {
        let ghost es_pre = entries_view(es@);
        match parse_entry_at(s, pos) {
            Some((e, pn)) => {
                let ghost em = (e.0, timers_view(e.1@));
                es.push(e);
                proof {
                    assert(entries_view(es@) =~= es_pre.push(em));
                    assert forall|rest: StoreModel|
                        true implies es_pre + (seq![em] + rest) =~= es_pre.push(em) + rest by {}
                    assert(spec_parse_entries(s@, p0, k0) == match spec_parse_entries(
                        s@,
                        pn as int,
                        (k - i - 1) as nat,
                    ) {
                        Some((rest, pe)) => Some::<(StoreModel, int)>(
                            (entries_view(es@) + rest, pe),
                        ),
                        None => None::<(StoreModel, int)>,
                    });
                }
                pos = pn;
            },
            None => {
                proof {
                    assert((k - i) as nat != 0);
                    assert(spec_parse_entries(s@, pos as int, (k - i) as nat) is None);
                    assert(spec_parse_entries(s@, p0, k0) is None);
                    assert(spec_parse_store(s@) is None);
                }
                return None;
            },
        }
        i = i + 1;
    }
    proof {
        assert(spec_parse_entries(s@, pos as int, 0) == Some::<(StoreModel, int)>(
            (StoreModel::empty(), pos as int),
        ));
        assert(entries_view(es@) + StoreModel::empty() =~= entries_view(es@));
        assert(spec_parse_entries(s@, p0, k0) == Some::<(StoreModel, int)>(
            (entries_view(es@), pos as int),
        ));
    }
    if pos != n {
        return None;
    }
    if has_dup_chat(&es) {
        return None;
    }
    Some(Store::from_entries(es))
}

/// Whether two entries of the list name the same chat.
fn has_dup_chat(es: &Vec<(i64, Vec<Timer>)>) -> (r: bool)
    ensures
        r == !chats_unique(entries_view(es@)),
{
    let m = es.len();
    let mut a: usize = 0;
    while a < m
        invariant
            m == es@.len(),
            a <= m,
            forall|x: int, y: int|
                0 <= x < y < m && x < a ==> entries_view(es@)[x].0 != entries_view(es@)[y].0,
        decreases m - a,
    {
        let mut b: usize = a + 1;
        while b < m
            invariant
                m == es@.len(),
                a < m,
                a < b <= m,
                forall|y: int| a < y < b ==> entries_view(es@)[a as int].0 != entries_view(
                    es@,
                )[y].0,
            decreases m - b,
        {
            if es[a].0 == es[b].0 {
                proof {
                    assert(entries_view(es@)[a as int].0 == es@[a as int].0);
                    assert(entries_view(es@)[b as int].0 == es@[b as int].0);
                    assert(!chats_unique(entries_view(es@)));
                }
                return true;
            }
            b = b + 1;
        }
        a = a + 1;
    }
    proof {
        assert(chats_unique(entries_view(es@)));
    }
    false
}

/// Round-trip persistence: parsing the snapshot that encoding wrote gives
/// the same store back — the same chats, in order, each with its identical
/// timer list, last firings included.
pub proof fn lemma_store_round_trip(v: StoreModel)
    requires
        crate::store::store_model_wf(v),
        store_encodable(v),
    ensures
        spec_parse_store(spec_enc_store(v)) == Some(v),
{
    let s = spec_enc_store(v);
    let header = "reminders "@;
    reveal_strlit("reminders ");
    assert(header.len() == 10);
    let en = spec_enc_nat_sp(v.len());
    let ee = spec_enc_entries(v);
    assert(s.subrange(0, 10) =~= header);
    assert(s.subrange(10, 10 + en.len() as int) =~= en);
    lemma_parse_nat_round_trip(s, 10, v.len());
    let p = 10 + en.len() as int;
    assert(s.subrange(p, p + ee.len() as int) =~= ee);
    lemma_parse_entries_round_trip(s, p, v);
    assert(p + ee.len() as int == s.len());
}

} // verus!
