use vstd::prelude::*;
use vstd::string::StringExecFns;

use crate::station::SourceLocation;

verus! {

/// The kinds of failure a program run can surface.
///
/// `StructuralError` covers malformed or ambiguous program layout found during
/// discovery (an unclosed marker, zero or several entry stations).
/// `IdentifierError` marks a station marker whose identifier names no known
/// station type. `OperandError` marks a station firing on pallets its logic
/// cannot handle. `DeadlockError` reports a run in which no station can make
/// progress and no terminal station was reached.
#[derive(Clone, Copy, PartialEq, Eq, Structural, Debug)]
pub enum ErrorType {
    StructuralError,
    IdentifierError,
    OperandError,
    DeadlockError,
}

/// A structured error: its kind, the source span it concerns (the sentinel
/// `SourceLocation::none()` when no span applies), and a human-readable note.
#[derive(Debug)]
pub struct Error {
    pub t: ErrorType,
    pub loc: SourceLocation,
    pub msg: String,
}

impl Error {
    pub fn new(t: ErrorType, loc: SourceLocation, msg: &str) -> (r: Self)
        ensures
            r.t == t,
            r.loc == loc,
            r.msg@ == msg@,
    {
        Error { t, loc, msg: String::from_str(msg) }
    }
}

} // verus!
