//! What can be wrong with an input string, and how it is reported.

use vstd::prelude::*;
use vstd::string::*;

verus! {

/// The rule that an input broke.
#[derive(Clone, Copy, Debug, PartialEq, Eq, Structural)]
pub enum ParseErrorKind {
    /// A date or a counter has the wrong number of separators.
    MalformedShape,
    /// The separators are in place, but the text is no date of the calendar.
    InvalidCalendarDate,
    /// The name of a counter is not `p` followed by one decimal digit.
    InvalidPeriodName,
    /// The value of a counter is no unsigned integer that fits 64 bits.
    InvalidCounterValue,
    /// A list holds an empty segment, as after a doubled or trailing delimiter.
    EmptyUnit,
}

/// The mathematical content of a `ParseError`: the rule broken and the offending text.
pub struct Fault {
    pub kind: ParseErrorKind,
    pub text: Seq<char>,
}

/// A rejected input: the rule it broke and the part of the input that broke it.
#[derive(Debug, PartialEq, Eq)]
pub struct ParseError {
    pub kind: ParseErrorKind,
    pub text: String,
}

impl View for ParseError {
    type V = Fault;

    open spec fn view(&self) -> Fault {
        Fault { kind: self.kind, text: self.text@ }
    }
}

impl Clone for ParseError {
    fn clone(&self) -> (copy: ParseError)
        ensures
            copy@ == self@,
    {
        ParseError { kind: self.kind, text: self.text.clone() }
    }
}

/// The words of a message that stand before the offending text.
pub open spec fn message_head(kind: ParseErrorKind) -> Seq<char> {
    match kind {
        ParseErrorKind::MalformedShape => "malformed input \""@,
        ParseErrorKind::InvalidCalendarDate => "invalid date \""@,
        ParseErrorKind::InvalidPeriodName => "invalid period name \""@,
        ParseErrorKind::InvalidCounterValue => "invalid counter value \""@,
        ParseErrorKind::EmptyUnit => "empty segment in \""@,
    }
}

/// The words of a message that stand after the offending text.
pub open spec fn message_tail(kind: ParseErrorKind) -> Seq<char> {
    match kind {
        ParseErrorKind::MalformedShape => "\": wrong number of separators"@,
        ParseErrorKind::InvalidCalendarDate =>
            "\": it isn't of the format \"yyyy-mm-dd\" or it isn't a valid date"@,
        ParseErrorKind::InvalidPeriodName =>
            "\": it isn't of the format 'p<single digit number>'"@,
        ParseErrorKind::InvalidCounterValue => "\": it isn't an unsigned integer"@,
        ParseErrorKind::EmptyUnit => "\""@,
    }
}

/// The message for a fault: what was broken, around the text that broke it.
pub open spec fn fault_message(fault: Fault) -> Seq<char> {
    message_head(fault.kind) + fault.text + message_tail(fault.kind)
}

impl ParseError {
    /// An error of the given kind about `text`.
    pub fn new(kind: ParseErrorKind, text: &str) -> (e: ParseError)
        ensures
            e@ == (Fault { kind, text: text@ }),
    {
        ParseError { kind, text: String::from_str(text) }
    }

    /// The message shown to the user: it names the rule and quotes the offending text.
    pub fn message(&self) -> (out: String)
        ensures
            out@ == fault_message(self@),
    {
        let (head, tail): (&str, &str) = match self.kind {
            ParseErrorKind::MalformedShape => (
                "malformed input \"",
                "\": wrong number of separators",
            ),
            ParseErrorKind::InvalidCalendarDate => (
                "invalid date \"",
                "\": it isn't of the format \"yyyy-mm-dd\" or it isn't a valid date",
            ),
            ParseErrorKind::InvalidPeriodName => (
                "invalid period name \"",
                "\": it isn't of the format 'p<single digit number>'",
            ),
            ParseErrorKind::InvalidCounterValue => (
                "invalid counter value \"",
                "\": it isn't an unsigned integer",
            ),
            ParseErrorKind::EmptyUnit => ("empty segment in \"", "\""),
        };
        String::from_str(head).concat(self.text.as_str()).concat(tail)
    }
}

} // verus!
