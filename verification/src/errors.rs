use vstd::prelude::*;

verus! {

/// Error returned when a message is sent to a mailbox that has been closed.
#[derive(Debug, Eq, PartialEq)]
pub struct SendError;

/// Error returned when a message is received from a mailbox that has been
/// closed and holds no remaining messages.
#[derive(Debug, Eq, PartialEq)]
pub struct RecvError;

impl SendError {
    /// A human-readable description of the failure.
    pub fn message(&self) -> (s: &'static str)
        ensures
            s@ == "message queue closed"@,
    {
        "message queue closed"
    }
}

impl RecvError {
    /// A human-readable description of the failure.
    pub fn message(&self) -> (s: &'static str)
        ensures
            s@ == "message queue closed"@,
    {
        "message queue closed"
    }
}

} // verus!
