//! What the app's forms check and show: valid user names and passwords,
//! and the text of a time control.
use vstd::prelude::*;

use crate::text::{decimal, push_decimal, push_str, str_chars};
use crate::time::TakTimeMode;

verus! {

/// Whether a character may be part of a user name: an ASCII letter or
/// digit, `_` or `-`.
pub open spec fn name_char(c: char) -> bool {
    ||| 'a' <= c <= 'z'
    ||| 'A' <= c <= 'Z'
    ||| '0' <= c <= '9'
    ||| c == '_'
    ||| c == '-'
}

/// Whether a user name is valid: 3 to 100 bytes long, each character a
/// name character.
pub fn validate_username(username: &str) -> (r: bool)
    ensures
        r == (3 <= vstd::utf8::encode_utf8(username@).len() as usize <= 100 && forall|i: int|
            0 <= i < username@.len() ==> name_char(#[trigger] username@[i])),
{
    let n = username.len();
    if n < 3 || n > 100 {
        return false;
    }
    let chars = str_chars(username);
    for i in 0..chars.len()
        invariant
            chars@ == username@,
            forall|j: int| 0 <= j < i ==> name_char(#[trigger] username@[j]),
    {
        let c = chars[i];
        let ok = ('a' <= c && c <= 'z') || ('A' <= c && c <= 'Z') || ('0' <= c && c <= '9') || c == '_' || c
            == '-';
        if !ok {
            return false;
        }
    }
    true
}

/// Whether a password is valid: 8 to 100 bytes long.
pub fn validate_password(password: &str) -> (r: bool)
    ensures
        r == (8 <= vstd::utf8::encode_utf8(password@).len() as usize <= 100),
{
    let n = password.len();
    n >= 8 && n <= 100
}

/// Which fields of the sign-in form are invalid.
pub struct FormState {
    pub invalid_username: bool,
    pub invalid_password: bool,
}

impl FormState {
    /// A form with both fields still invalid.
    pub fn new() -> (r: Self)
        ensures
            r.invalid_username && r.invalid_password,
    {
        FormState { invalid_username: true, invalid_password: true }
    }

    /// Whether the form may be sent: both fields valid.
    pub fn is_valid(&self) -> (r: bool)
        ensures
            r == (!self.invalid_username && !self.invalid_password),
    {
        !self.invalid_username && !self.invalid_password
    }
}

/// Seconds below a minute in two digits.
pub open spec fn two_digits(n: nat) -> Seq<char> {
    if n < 10 {
        seq!['0'] + decimal(n)
    } else {
        decimal(n)
    }
}

/// The text of a time control: minutes, `:`, seconds in two digits, and
/// ` + `, the increment and `s` when there is an increment.
pub open spec fn time_mode_text(m: TakTimeMode) -> Seq<char> {
    let base = decimal((m.time / 60) as nat) + seq![':'] + two_digits((m.time % 60) as nat);
    if m.increment > 0 {
        base + seq![' ', '+', ' '] + decimal(m.increment as nat) + seq!['s']
    } else {
        base
    }
}

/// The text of a time control, or `No time limit` without one.
pub fn formatted_time_mode(time_mode: &Option<TakTimeMode>) -> (r: String)
    ensures
        match time_mode {
            Some(m) => r@ == time_mode_text(*m),
            None => r@ == "No time limit"@,
        },
{
    let mut s = String::new();
    let m = match time_mode {
        Some(m) => m,
        None => {
            push_str(&mut s, "No time limit");
            assert(s@ =~= "No time limit"@);
            return s;
        },
    };
    let minutes = m.time / 60;
    let seconds = m.time % 60;
    push_decimal(&mut s, minutes);
    s.push(':');
    if seconds < 10 {
        s.push('0');
    }
    push_decimal(&mut s, seconds);
    let ghost base = s@;
    assert(base =~= decimal(minutes as nat) + seq![':'] + two_digits(seconds as nat));
    if m.increment > 0 {
        s.push(' ');
        s.push('+');
        s.push(' ');
        push_decimal(&mut s, m.increment);
        s.push('s');
        assert(s@ =~= base + seq![' ', '+', ' '] + decimal(m.increment as nat) + seq!['s']);
    }
    s
}

} // verus!
