//! The entry point of a run: scanning a source text and reporting what went
//! wrong with it.

use crate::grammar::{line_at, tokens_of, LexFault};
use crate::scanner::scan;
use crate::token::{token_views, Token};
use vstd::prelude::*;
use vstd::string::StringExecFns;

verus! {

/// A lexical error: the line on which it was detected and a message for the
/// user.
#[derive(Debug)]
pub struct LoxError {
    pub line: u32,
    pub message: String,
}

impl View for LoxError {
    type V = LexFault;

    open spec fn view(&self) -> LexFault {
        LexFault { line: self.line as nat, message: self.message@ }
    }
}

/// The character that writes the digit `d` in base ten.
pub open spec fn decimal_digit(d: nat) -> char {
    if d == 0 {
        '0'
    } else if d == 1 {
        '1'
    } else if d == 2 {
        '2'
    } else if d == 3 {
        '3'
    } else if d == 4 {
        '4'
    } else if d == 5 {
        '5'
    } else if d == 6 {
        '6'
    } else if d == 7 {
        '7'
    } else if d == 8 {
        '8'
    } else {
        '9'
    }
}

/// The number `n` written in base ten, without leading zeros.
pub open spec fn decimal(n: nat) -> Seq<char>
    decreases n,
{
    if n < 10 {
        seq![decimal_digit(n)]
    } else {
        decimal(n / 10).push(decimal_digit(n % 10))
    }
}

/// The line that reports an error to the user: the line number, the place
/// of the error within the line where one is known, and the message.
pub open spec fn report_text(line: nat, place: Seq<char>, message: Seq<char>) -> Seq<char> {
    "[line "@ + decimal(line) + "] Error"@ + place + ": "@ + message
}

/// The digit `d` as text.
fn digit_text(d: u32) -> (text: &'static str)
    requires
        d < 10,
    ensures
        text@ == seq![decimal_digit(d as nat)],
{
    proof {
        reveal_strlit("0");
        reveal_strlit("1");
        reveal_strlit("2");
        reveal_strlit("3");
        reveal_strlit("4");
        reveal_strlit("5");
        reveal_strlit("6");
        reveal_strlit("7");
        reveal_strlit("8");
        reveal_strlit("9");
    }
    let text = if d == 0 {
        "0"
    } else if d == 1 {
        "1"
    } else if d == 2 {
        "2"
    } else if d == 3 {
        "3"
    } else if d == 4 {
        "4"
    } else if d == 5 {
        "5"
    } else if d == 6 {
        "6"
    } else if d == 7 {
        "7"
    } else if d == 8 {
        "8"
    } else {
        "9"
    };
    assert(text@ =~= seq![decimal_digit(d as nat)]);
    text
}

/// The number `n` written in base ten.
fn decimal_text(n: u32) -> (text: String)
    ensures
        text@ == decimal(n as nat),
    decreases n,
{
    if n < 10 {
        String::from_str(digit_text(n))
    } else {
        let mut text = decimal_text(n / 10);
        text.append(digit_text(n % 10));
        text
    }
}

/// The state of a session: whether an error has been reported since the
/// flag was last cleared.
pub struct Lox {
    pub had_error: bool,
}

impl Lox {
    /// A session in which no error has been reported.
    pub fn new() -> (lox: Lox)
        ensures
            !lox.had_error,
    {
        Lox { had_error: false }
    }

    /// Scans `source`. Returns its tokens, or, where the scan fails, the
    /// line that reports the error, and then marks the session as failed.
    pub fn run(&mut self, source: &String) -> (result: Result<Vec<Token>, String>)
        requires
            line_at(source@, source@.len() as int) <= u32::MAX,
        ensures
            match result {
                Ok(tokens) => {
                    &&& tokens_of(source@) == Ok::<_, LexFault>(token_views(tokens@))
                    &&& final(self).had_error == old(self).had_error
                },
                Err(report) => {
                    &&& tokens_of(source@) matches Err(fault)
                    &&& report@ == report_text(fault.line, Seq::empty(), fault.message)
                    &&& final(self).had_error
                },
            },
    {
        match scan(source) {
            Ok(tokens) => Ok(tokens),
            Err(error) => Err(self.error(error.line, &error.message)),
        }
    }

    /// Records an error on line `line` and returns the line that reports it
    /// to the user.
    pub fn error(&mut self, line: u32, message: &String) -> (report: String)
        ensures
            final(self).had_error,
            report@ == report_text(line as nat, Seq::empty(), message@),
    {
        let place = String::new();
        self.report(line, &place, message)
    }

    /// Records an error on line `line`, at `place` within it, and returns
    /// the line that reports it to the user.
    fn report(&mut self, line: u32, place: &String, message: &String) -> (report: String)
        ensures
            final(self).had_error,
            report@ == report_text(line as nat, place@, message@),
    {
        let mut report = String::from_str("[line ");
        report.append(decimal_text(line).as_str());
        report.append("] Error");
        report.append(place.as_str());
        report.append(": ");
        report.append(message.as_str());
        self.had_error = true;
        report
    }
}

} // verus!
