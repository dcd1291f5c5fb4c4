use vstd::prelude::*;

use crate::arith::round_div;
use crate::text::{chars_of, decimal, digit_char, digit_to_char, push_decimal, push_str, string_of};

verus! {

/// How long an error stays, in milliseconds.
pub const ERROR_TTL: u64 = 5000;

/// How long an info message stays, in milliseconds.
pub const INFO_TTL: u64 = 3000;

/// A message and the milliseconds it has left.
pub struct StatusTimedText {
    pub text: String,
    pub ttl: u64,
}

/// Which slot the shown text came from, for its colour.
#[derive(Clone, Copy, Debug, PartialEq, Eq, Structural)]
pub enum StatusLevel {
    Error,
    Info,
    Hint,
}

/// One slot each for an error and an info message, and a hint.
pub struct StatusBar {
    pub error: StatusTimedText,
    pub info: StatusTimedText,
    pub hint: String,
}

/// `ttl - elapsed`, kept within [0, cap].
pub open spec fn decayed(ttl: int, elapsed: int, cap: int) -> int {
    let v = ttl - elapsed;
    if v < 0 {
        0
    } else if v > cap {
        cap
    } else {
        v
    }
}

/// A message with its remaining time in seconds, one decimal: `text (2.5s)`.
pub open spec fn timed_text(text: Seq<char>, ttl: int) -> Seq<char> {
    let tenths = round_div(ttl, 100);
    text + " ("@ + decimal((tenths / 10) as nat) + seq!['.', digit_char(tenths)] + "s)"@
}

/// The slot shown, given the remaining times of the error and of the info.
pub open spec fn priority(error_ttl: int, info_ttl: int) -> StatusLevel {
    if error_ttl > 0 {
        StatusLevel::Error
    } else if info_ttl > 0 {
        StatusLevel::Info
    } else {
        StatusLevel::Hint
    }
}

/// An active error is shown before an active info message; once the error's
/// time has run out, the info message is shown, and meanwhile its time has
/// not been counted down.
pub proof fn lemma_error_before_info(error_ttl: int, info_ttl: int, elapsed: int)
    requires
        error_ttl > 0,
        info_ttl > 0,
        elapsed >= 0,
    ensures
        priority(error_ttl, info_ttl) == StatusLevel::Error,
        elapsed >= error_ttl ==> decayed(error_ttl, elapsed, 10000) == 0,
        decayed(error_ttl, elapsed, 10000) == 0 ==> priority(
            decayed(error_ttl, elapsed, 10000),
            info_ttl,
        ) == StatusLevel::Info,
{
}

impl StatusBar {
    pub fn new() -> (r: StatusBar)
        ensures
            r.error.text@.len() == 0,
            r.error.ttl == 0,
            r.info.text@.len() == 0,
            r.info.ttl == 0,
            r.hint@.len() == 0,
    {
        StatusBar {
            error: StatusTimedText { text: String::new(), ttl: 0 },
            info: StatusTimedText { text: String::new(), ttl: 0 },
            hint: String::new(),
        }
    }

    /// Shows `err` as the error for five seconds.
    pub fn show_error(&mut self, err: &str)
        ensures
            final(self).error.text@ == err@,
            final(self).error.ttl == ERROR_TTL,
            final(self).info == old(self).info,
            final(self).hint == old(self).hint,
    {
        self.error = StatusTimedText { text: err.to_owned(), ttl: ERROR_TTL };
    }

    /// Shows `info` as the info message for three seconds.
    pub fn show_info(&mut self, info: &str)
        ensures
            final(self).info.text@ == info@,
            final(self).info.ttl == INFO_TTL,
            final(self).error == old(self).error,
            final(self).hint == old(self).hint,
    {
        self.info = StatusTimedText { text: info.to_owned(), ttl: INFO_TTL };
    }

    /// Sets the hint shown when no message is active.
    pub fn show_hint(&mut self, hint: String)
        ensures
            final(self).hint == hint,
            final(self).error == old(self).error,
            final(self).info == old(self).info,
    {
        self.hint = hint;
    }

    /// The text to show after `elapsed` milliseconds: an active error first,
    /// then an active info message, each with its remaining time, which this
    /// counts down; else the hint, which is then cleared.
    pub fn most_important_text_display(&mut self, elapsed: u64) -> (r: (String, StatusLevel))
        ensures
            r.1 == priority(old(self).error.ttl as int, old(self).info.ttl as int),
            old(self).error.ttl > 0 ==> {
                &&& final(self).error.ttl == decayed(old(self).error.ttl as int, elapsed as int, 10000)
                &&& r.0@ == timed_text(old(self).error.text@, final(self).error.ttl as int)
                &&& r.1 == StatusLevel::Error
                &&& final(self).error.text == old(self).error.text
                &&& final(self).info == old(self).info
                &&& final(self).hint == old(self).hint
            },
            old(self).error.ttl == 0 && old(self).info.ttl > 0 ==> {
                &&& final(self).info.ttl == decayed(old(self).info.ttl as int, elapsed as int, 10000)
                &&& r.0@ == timed_text(old(self).info.text@, final(self).info.ttl as int)
                &&& r.1 == StatusLevel::Info
                &&& final(self).info.text == old(self).info.text
                &&& final(self).error == old(self).error
                &&& final(self).hint == old(self).hint
            },
            old(self).error.ttl == 0 && old(self).info.ttl == 0 ==> {
                &&& r.0@ == old(self).hint@
                &&& r.1 == StatusLevel::Hint
                &&& final(self).hint@.len() == 0
                &&& final(self).error == old(self).error
                &&& final(self).info == old(self).info
            },
    {
        if self.error.ttl > 0 {
            self.error.ttl = decay(self.error.ttl, elapsed, 10000);
            let text = format_timed(&self.error);
            return (text, StatusLevel::Error);
        }
        if self.info.ttl > 0 {
            self.info.ttl = decay(self.info.ttl, elapsed, 10000);
            let text = format_timed(&self.info);
            return (text, StatusLevel::Info);
        }
        let hint = self.hint.clone();
        self.hint = String::new();
        (hint, StatusLevel::Hint)
    }
}

fn decay(ttl: u64, elapsed: u64, cap: u64) -> (r: u64)
    ensures
        r == decayed(ttl as int, elapsed as int, cap as int),
{
    if elapsed >= ttl {
        0
    } else if ttl - elapsed > cap {
        cap
    } else {
        ttl - elapsed
    }
}

/// The message with its remaining time, as `timed_text`.
fn format_timed(t: &StatusTimedText) -> (r: String)
    requires
        t.ttl <= 10000,
    ensures
        r@ == timed_text(t.text@, t.ttl as int),
{
    let mut out = chars_of(t.text.as_str());
    push_str(&mut out, " (");
    let tenths: u64 = (2 * t.ttl + 100) / 200;
    push_decimal(&mut out, tenths / 10);
    out.push('.');
    out.push(digit_to_char(tenths));
    push_str(&mut out, "s)");
    proof {
        assert(out@ =~= timed_text(t.text@, t.ttl as int));
    }
    string_of(&out)
}

} // verus!
