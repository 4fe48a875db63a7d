use vstd::prelude::*;

use crate::errors::{RecvError, SendError};

verus! {

/// The send capability of a bounded, ordered, point-to-point message conduit.
///
/// `inbox()` models the messages accepted so far and not yet taken by the
/// receive side, oldest first. A producer that has to wait for room is modeled
/// as completing its send once room appears, so a successful `send` always
/// appends its message to `inbox()`.
pub trait Sender<T>: Sized {
    /// The messages accepted and not yet taken by the receive side, oldest first.
    spec fn inbox(&self) -> Seq<T>;

    /// Whether the conduit has been closed, so that no further message can be
    /// accepted.
    spec fn closed(&self) -> bool;

    /// Enqueues a message. This method returns `SendError` if the queue has
    /// been closed; otherwise the message is appended behind every message
    /// accepted earlier.
    fn send(&mut self, message: T) -> (r: Result<(), SendError>)
        ensures
            match r {
                Ok(()) => {
                    &&& !old(self).closed()
                    &&& !final(self).closed()
                    &&& final(self).inbox() == old(self).inbox().push(message)
                },
                Err(e) => {
                    &&& old(self).closed()
                    &&& final(self).closed()
                    &&& final(self).inbox() == old(self).inbox()
                },
            },
    ;
}

/// The receive capability of a bounded, ordered, point-to-point message conduit.
///
/// `pending()` models every message the capability will still yield, in
/// arrival order. An asynchronous receive that would suspend until a message
/// arrives or the conduit closes is modeled by its outcome: either the next
/// message of `pending()`, or, once `pending()` is exhausted, the
/// closed-conduit failure.
pub trait Receiver<T>: Sized {
    /// The messages this capability will still yield, in arrival order.
    spec fn pending(&self) -> Seq<T>;

    /// What `len` reports: the number of messages counted as queued inside
    /// the conduit itself.
    spec fn queued(&self) -> nat;

    /// The fixed upper bound on in-flight messages.
    spec fn cap(&self) -> usize;

    /// Receives the next value.
    ///
    /// This method returns `RecvError` if the queue has been closed and there
    /// are no remaining messages. A receive hands a message out of the
    /// conduit and never adds one, so the queued count cannot grow.
    fn recv(&mut self) -> (r: Result<T, RecvError>)
        ensures
            final(self).cap() == old(self).cap(),
            final(self).queued() <= old(self).queued(),
            match r {
                Ok(m) => {
                    &&& old(self).pending().len() > 0
                    &&& m == old(self).pending()[0]
                    &&& final(self).pending() == old(self).pending().drop_first()
                },
                Err(e) => {
                    &&& old(self).pending().len() == 0
                    &&& final(self).pending().len() == 0
                },
            },
    ;

    /// Returns the number of messages in the queue.
    fn len(&self) -> (n: usize)
        ensures
            n == self.queued(),
    ;

    /// Returns whether the queue holds no messages.
    fn is_empty(&self) -> (r: bool)
        ensures
            r == (self.queued() == 0),
    {
        self.len() == 0
    }

    /// Returns the message queue's max capacity if it's bounded.
    fn max_capacity(&self) -> (n: usize)
        ensures
            n == self.cap(),
    ;
}

} // verus!
