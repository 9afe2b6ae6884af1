//! Errors that decoding reports.

use vstd::prelude::*;
use crate::text::{append_chars, chars_of, decimal_spec, push_decimal, string_from_chars};

verus! {

/// An error that can occur while decoding TOON text.
#[derive(Debug, Clone, PartialEq)]
pub enum DecodeError {
    /// A line's leading spaces are not a multiple of the indent width.
    InvalidIndentation { line: usize },
    /// An array header is malformed.
    InvalidArrayHeader(String),
    /// An array holds another number of items than its header declares.
    ArrayLengthMismatch { expected: usize, found: usize },
    /// A tabular row holds another number of cells than the field list.
    RowWidthMismatch { line: usize, expected: usize, found: usize },
    /// A line in an object has no key.
    InvalidLine { line: usize, content: String },
    /// A quoted string holds an escape that is not allowed.
    InvalidEscapeSequence { line: usize, sequence: String },
    /// Any other malformed input.
    ParseError(String),
}

/// The mathematical model of a [`DecodeError`].
pub enum DecodeFault {
    InvalidIndentation { line: int },
    InvalidArrayHeader(Seq<char>),
    ArrayLengthMismatch { expected: int, found: int },
    RowWidthMismatch { line: int, expected: int, found: int },
    InvalidLine { line: int, content: Seq<char> },
    InvalidEscapeSequence { line: int, sequence: Seq<char> },
    ParseError(Seq<char>),
}

impl View for DecodeError {
    type V = DecodeFault;

    open spec fn view(&self) -> DecodeFault {
        match self {
            DecodeError::InvalidIndentation { line } => DecodeFault::InvalidIndentation {
                line: *line as int,
            },
            DecodeError::InvalidArrayHeader(m) => DecodeFault::InvalidArrayHeader(m@),
            DecodeError::ArrayLengthMismatch { expected, found } =>
                DecodeFault::ArrayLengthMismatch { expected: *expected as int, found: *found as int },
            DecodeError::RowWidthMismatch { line, expected, found } =>
                DecodeFault::RowWidthMismatch {
                    line: *line as int,
                    expected: *expected as int,
                    found: *found as int,
                },
            DecodeError::InvalidLine { line, content } => DecodeFault::InvalidLine {
                line: *line as int,
                content: content@,
            },
            DecodeError::InvalidEscapeSequence { line, sequence } =>
                DecodeFault::InvalidEscapeSequence { line: *line as int, sequence: sequence@ },
            DecodeError::ParseError(m) => DecodeFault::ParseError(m@),
        }
    }
}

/// The one-line description of an error.
pub open spec fn message_spec(e: DecodeFault) -> Seq<char> {
    match e {
        DecodeFault::InvalidIndentation { line } => "Invalid indentation at line "@ + decimal_spec(
            line as nat,
        ),
        DecodeFault::InvalidArrayHeader(m) => "Invalid array header: "@ + m,
        DecodeFault::ArrayLengthMismatch { expected, found } => "Array length mismatch: expected "@
            + decimal_spec(expected as nat) + ", got "@ + decimal_spec(found as nat),
        DecodeFault::RowWidthMismatch { line, expected, found } => "Row width mismatch at line "@
            + decimal_spec(line as nat) + ": expected "@ + decimal_spec(expected as nat)
            + " fields, got "@ + decimal_spec(found as nat),
        DecodeFault::InvalidLine { line, content } => "Invalid line at "@ + decimal_spec(
            line as nat,
        ) + ": "@ + content,
        DecodeFault::InvalidEscapeSequence { line, sequence } => "Invalid escape sequence at line "@
            + decimal_spec(line as nat) + ": \\"@ + sequence,
        DecodeFault::ParseError(m) => "Parse error: "@ + m,
    }
}

fn push_text(out: &mut Vec<char>, s: &str)
    ensures
        final(out)@ == old(out)@ + s@,
{
    let c = chars_of(s);
    append_chars(out, &c);
}

impl DecodeError {
    /// A one-line description of the error.
    pub fn message(&self) -> (r: String)
        ensures
            r@ == message_spec(self@),
    {
        let mut out: Vec<char> = Vec::new();
        match self {
            DecodeError::InvalidIndentation { line } => {
                push_text(&mut out, "Invalid indentation at line ");
                push_decimal(&mut out, *line as u64);
            },
            DecodeError::InvalidArrayHeader(m) => {
                push_text(&mut out, "Invalid array header: ");
                push_text(&mut out, m.as_str());
            },
            DecodeError::ArrayLengthMismatch { expected, found } => {
                push_text(&mut out, "Array length mismatch: expected ");
                push_decimal(&mut out, *expected as u64);
                push_text(&mut out, ", got ");
                push_decimal(&mut out, *found as u64);
            },
            DecodeError::RowWidthMismatch { line, expected, found } => {
                push_text(&mut out, "Row width mismatch at line ");
                push_decimal(&mut out, *line as u64);
                push_text(&mut out, ": expected ");
                push_decimal(&mut out, *expected as u64);
                push_text(&mut out, " fields, got ");
                push_decimal(&mut out, *found as u64);
            },
            DecodeError::InvalidLine { line, content } => {
                push_text(&mut out, "Invalid line at ");
                push_decimal(&mut out, *line as u64);
                push_text(&mut out, ": ");
                push_text(&mut out, content.as_str());
            },
            DecodeError::InvalidEscapeSequence { line, sequence } => {
                push_text(&mut out, "Invalid escape sequence at line ");
                push_decimal(&mut out, *line as u64);
                push_text(&mut out, ": \\");
                push_text(&mut out, sequence.as_str());
            },
            DecodeError::ParseError(m) => {
                push_text(&mut out, "Parse error: ");
                push_text(&mut out, m.as_str());
            },
        }
        assert(out@ =~= message_spec(self@));
        string_from_chars(&out)
    }
}

} // verus!
