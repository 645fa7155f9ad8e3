use vstd::prelude::*;

verus! {

/// The failures the whole pipeline reports, each with its message.
#[derive(Debug, PartialEq, Eq)]
pub enum GPTError {
    ParseError(String),
    UnknownParseError(String),
    IntervalError(String),
    Unknown,
}

} // verus!
