//! The failure channel of the decompositions.
//!
//! A failure carries a kind — a numerically unrecoverable decomposition, or
//! an invalid argument — and a short human-readable message. Violations of
//! square-ness preconditions are not errors: they are excluded by `requires`
//! clauses.

use vstd::prelude::*;

verus! {

#[derive(Clone, Copy, PartialEq, Eq, Structural, Debug)]
pub enum ErrorKind {
    /// The matrix cannot be decomposed in the requested way.
    DecompFailure,
    /// An argument was rejected before any work was done.
    InvalidArg,
}

#[derive(Debug)]
pub struct Error {
    pub kind: ErrorKind,
    pub message: &'static str,
}

impl Error {
    pub fn new(kind: ErrorKind, message: &'static str) -> (r: Error)
        ensures
            r.kind == kind,
            r.message == message,
    {
        Error { kind, message }
    }

    pub fn kind(&self) -> (r: ErrorKind)
        ensures
            r == self.kind,
    {
        self.kind
    }

    pub fn message(&self) -> (r: &'static str)
        ensures
            r == self.message,
    {
        self.message
    }
}

} // verus!
