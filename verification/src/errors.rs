//! The error taxonomy: a closed set of outcomes for every operation.
//!
//! Single-key operations end in one of four ways: success, keyed absence
//! (`NotFound`), a generic engine-side failure (`Fail`), or a local
//! validation failure detected before the store is touched
//! (`InvalidArgument`). [`Outcome`] is the specification-level form of that
//! set, [`ErrorKind`] its executable error half, and [`classify_status`]
//! the fixed mapping from a C-style integer status code into the taxonomy.

use vstd::prelude::*;

verus! {

/// The specification-level outcome of an operation.
pub enum Outcome {
    /// The operation succeeded.
    Success,
    /// The named key was absent; recoverable and expected in normal use.
    NotFound(Seq<char>),
    /// A generic engine-side failure with no further structure.
    Fail,
    /// A local validation failure (an embedded terminator character),
    /// raised before the store is consulted.
    InvalidArgument,
}

/// The error half of an operation's result.
#[derive(Debug, PartialEq, Eq)]
pub enum ErrorKind {
    /// The given key was absent.
    NotFound(String),
    /// A generic engine-side failure.
    Fail,
    /// An argument held an embedded terminator character.
    InvalidArgument,
}

impl View for ErrorKind {
    type V = Outcome;

    open spec fn view(&self) -> Outcome {
        match self {
            ErrorKind::NotFound(k) => Outcome::NotFound(k@),
            ErrorKind::Fail => Outcome::Fail,
            ErrorKind::InvalidArgument => Outcome::InvalidArgument,
        }
    }
}

/// The outcome that a unit result stands for.
pub open spec fn outcome_of(r: Result<(), ErrorKind>) -> Outcome {
    match r {
        Ok(()) => Outcome::Success,
        Err(e) => e@,
    }
}

/// The fixed status-code convention: `1` reports "found/applied", `-1` a
/// generic failure, and every other value "not found".
pub open spec fn spec_classify(status: int, key: Seq<char>) -> Outcome {
    if status == 1 {
        Outcome::Success
    } else if status == -1 {
        Outcome::Fail
    } else {
        Outcome::NotFound(key)
    }
}

/// Classifies a C-style integer status code for an operation on `key`.
pub fn classify_status(status: i32, key: &str) -> (r: Result<(), ErrorKind>)
    ensures
        outcome_of(r) == spec_classify(status as int, key@),
{
    if status == 1 {
        Ok(())
    } else if status == -1 {
        Err(ErrorKind::Fail)
    } else {
        Err(ErrorKind::NotFound(key.to_owned()))
    }
}

} // verus!
