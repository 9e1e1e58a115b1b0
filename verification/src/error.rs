//! Errors raised on the ingestion path.

use vstd::prelude::*;

verus! {

/// Failure of an ingestion step.
///
/// `Storage` reports that the store could not hold another row or count;
/// `Consistency` reports a checkpoint that moved under a running replay,
/// which indicates an external concurrent writer; `Io` is reserved for
/// callers that feed the replayer from an unreadable source.
#[derive(Clone, Copy, PartialEq, Eq, Structural, Debug)]
pub enum MyError {
    Storage,
    Consistency,
    Io,
}

impl MyError {
    /// A short diagnostic text for logs.
    pub fn message(&self) -> (r: &'static str)
        ensures
            self is Storage ==> r@ == "storage failure"@,
            self is Consistency ==> r@ == "checkpoint moved by a concurrent writer"@,
            self is Io ==> r@ == "log source unreadable"@,
    {
        match self {
            MyError::Storage => "storage failure",
            MyError::Consistency => "checkpoint moved by a concurrent writer",
            MyError::Io => "log source unreadable",
        }
    }
}

} // verus!
