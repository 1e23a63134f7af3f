//! Errors of the parser.
use vstd::prelude::*;

use crate::text::{concat2, concat3, copy_str};
use crate::types::{nat_text, u64_to_string};

verus! {

/// Errors that can occur while a Tupfile is parsed.
#[derive(Debug)]
pub enum ParseError {
    Syntax { file: String, line: usize, message: String },
    RuleParse { file: String, line: usize, message: String },
    MissingEndif { file: String },
    ErrorDirective { file: String, line: usize, message: String },
    Io { path: String, source: String },
    Other(String),
}

/// An error as texts.
#[verifier::ext_equal]
pub enum ErrorText {
    Syntax { file: Seq<char>, line: usize, message: Seq<char> },
    RuleParse { file: Seq<char>, line: usize, message: Seq<char> },
    MissingEndif { file: Seq<char> },
    ErrorDirective { file: Seq<char>, line: usize, message: Seq<char> },
    Io { path: Seq<char>, source: Seq<char> },
    Other(Seq<char>),
}

impl View for ParseError {
    type V = ErrorText;

    open spec fn view(&self) -> ErrorText {
        match *self {
            ParseError::Syntax { file, line, message } => ErrorText::Syntax {
                file: file@,
                line,
                message: message@,
            },
            ParseError::RuleParse { file, line, message } => ErrorText::RuleParse {
                file: file@,
                line,
                message: message@,
            },
            ParseError::MissingEndif { file } => ErrorText::MissingEndif { file: file@ },
            ParseError::ErrorDirective { file, line, message } => ErrorText::ErrorDirective {
                file: file@,
                line,
                message: message@,
            },
            ParseError::Io { path, source } => ErrorText::Io { path: path@, source: source@ },
            ParseError::Other(m) => ErrorText::Other(m@),
        }
    }
}

/// Where an error is, and what it is.
pub open spec fn located(
    kind: Seq<char>,
    file: Seq<char>,
    line: usize,
    message: Seq<char>,
) -> Seq<char> {
    kind + file + " line "@ + nat_text(line as nat) + "\n  "@ + message
}

/// The text that tells of an error.
pub open spec fn error_message(e: ErrorText) -> Seq<char> {
    match e {
        ErrorText::Syntax { file, line, message } => located(
            "Syntax error parsing "@,
            file,
            line,
            message,
        ),
        ErrorText::RuleParse { file, line, message } => located(
            "Error parsing "@,
            file,
            line,
            message,
        ),
        ErrorText::MissingEndif { file } => "Error parsing "@ + file
            + ": missing endif before EOF."@,
        ErrorText::ErrorDirective { file, line, message } => located(
            "Error parsing "@,
            file,
            line,
            message,
        ),
        ErrorText::Io { path, source } => "I/O error reading "@ + path + ": "@ + source,
        ErrorText::Other(m) => m,
    }
}

fn locate(kind: &str, file: &str, line: usize, message: &str) -> (r: String)
    ensures
        r@ == located(kind@, file@, line, message@),
{
    let n = u64_to_string(line as u64);
    let a = concat3(kind, file, " line ");
    let b = concat3(a.as_str(), n.as_str(), "\n  ");
    concat2(b.as_str(), message)
}

impl ParseError {
    /// The text that tells of the error.
    pub fn message(&self) -> (r: String)
        ensures
            r@ == error_message(self@),
    {
        match self {
            ParseError::Syntax { file, line, message } => {
                locate("Syntax error parsing ", file.as_str(), *line, message.as_str())
            },
            ParseError::RuleParse { file, line, message } => {
                locate("Error parsing ", file.as_str(), *line, message.as_str())
            },
            ParseError::MissingEndif { file } => {
                concat3("Error parsing ", file.as_str(), ": missing endif before EOF.")
            },
            ParseError::ErrorDirective { file, line, message } => {
                locate("Error parsing ", file.as_str(), *line, message.as_str())
            },
            ParseError::Io { path, source } => {
                let a = concat3("I/O error reading ", path.as_str(), ": ");
                concat2(a.as_str(), source.as_str())
            },
            ParseError::Other(m) => copy_str(m.as_str()),
        }
    }
}

} // verus!
