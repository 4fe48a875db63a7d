use vstd::prelude::*;

use std::collections::VecDeque;

use crate::errors::{RecvError, SendError};
use crate::traits::{Receiver, Sender};

verus! {

/// A deterministic in-memory mailbox: a bounded, ordered, point-to-point
/// message conduit that holds both capabilities of the channel contract in a
/// single exclusively-owned value.
///
/// Suspension is modeled away: a send that would wait for room completes once
/// room appears, so `send` appends whenever the mailbox is open, and the queue
/// may transiently hold more than `max_capacity()` messages (those stand for
/// producers still waiting to hand their message over). A receive that would
/// wait completes with the next queued message; once the queue is empty, no
/// further message can ever arrive in a value that is exclusively owned, so
/// `recv` reports the closed-queue failure.
pub struct Mailbox<T> {
    queue: VecDeque<T>,
    closed: bool,
    capacity: usize,
}

impl<T> Mailbox<T> {
    /// Creates an open, empty mailbox whose reported max capacity is
    /// `capacity`.
    pub fn new(capacity: usize) -> (m: Self)
        ensures
            m.pending() == Seq::<T>::empty(),
            m.inbox() == Seq::<T>::empty(),
            !m.closed(),
            m.cap() == capacity,
            m.queued() == 0,
    {
        Mailbox { queue: VecDeque::with_capacity(capacity), closed: false, capacity }
    }

    /// Closes the mailbox: no further message will be accepted, while the
    /// messages already queued stay deliverable.
    pub fn close(&mut self)
        ensures
            final(self).closed(),
            final(self).pending() == old(self).pending(),
            final(self).inbox() == old(self).inbox(),
            final(self).cap() == old(self).cap(),
            final(self).queued() == old(self).queued(),
    {
        self.closed = true;
    }

    /// Both capabilities of a mailbox operate one queue: what the send side
    /// has accepted and not yet handed over is exactly what the receive side
    /// will still yield.
    pub proof fn lemma_same_queue(&self)
        ensures
            self.inbox() == self.pending(),
    {
    }

    /// What `len` reports on a mailbox is exactly the number of messages it
    /// will still yield: the queue holds them all, and nothing else counts.
    pub proof fn lemma_queued_matches_pending(&self)
        ensures
            self.queued() == self.pending().len(),
    {
    }
}

impl<T> Sender<T> for Mailbox<T> {
    closed spec fn inbox(&self) -> Seq<T> {
        self.queue@
    }

    closed spec fn closed(&self) -> bool {
        self.closed
    }

    fn send(&mut self, message: T) -> (r: Result<(), SendError>)
        ensures
            final(self).pending() == final(self).inbox(),
            final(self).cap() == old(self).cap(),
            final(self).queued() == final(self).inbox().len(),
    {
        if self.closed {
            Err(SendError)
        } else {
            self.queue.push_back(message);
            Ok(())
        }
    }
}

impl<T> Receiver<T> for Mailbox<T> {
    closed spec fn pending(&self) -> Seq<T> {
        self.queue@
    }

    closed spec fn queued(&self) -> nat {
        self.queue@.len()
    }

    closed spec fn cap(&self) -> usize {
        self.capacity
    }

    fn recv(&mut self) -> (r: Result<T, RecvError>)
        ensures
            final(self).queued() == final(self).pending().len(),
    {
        match self.queue.pop_front() {
            Some(message) => Ok(message),
            None => Err(RecvError),
        }
    }

    fn len(&self) -> (n: usize) {
        self.queue.len()
    }

    fn max_capacity(&self) -> (n: usize) {
        self.capacity
    }
}

} // verus!
