use vstd::prelude::*;

use crate::buffer::{as_live_slots, leading_tombstones, live_of, SelectiveBuffer};
use crate::errors::RecvError;
use crate::mailbox::Mailbox;
use crate::traits::Receiver;

verus! {

/// Wraps the receive capability of a bounded channel and adds a
/// predicate-based selective receive: the earliest-arrived message satisfying
/// a predicate can be delivered ahead of its predecessors, while every skipped
/// message stays buffered and is still delivered, in arrival order, by the
/// plain receive.
pub struct SelectiveReceiver<R, T> {
    inner: R,
    // A tombstone marks a slot whose message has already been delivered.
    buffer: SelectiveBuffer<T>,
}

impl<R, T> SelectiveReceiver<R, T> where R: Receiver<T> {
    /// The buffered messages still owed to callers, in arrival order: a prefix
    /// of `pending()`.
    pub closed spec fn buffered(&self) -> Seq<T> {
        self.buffer.live()
    }

    /// The number of buffer slots, tombstones included; this is what counts
    /// against the channel's max capacity.
    pub closed spec fn slot_count(&self) -> nat {
        self.buffer@.len()
    }

    /// The slots of the internal buffer, oldest first: a `Some` slot is live,
    /// a `None` slot is a tombstone left where a message has already been
    /// delivered.
    pub closed spec fn slots(&self) -> Seq<Option<T>> {
        self.buffer@
    }

    /// `buffered()` and `slot_count()` are the live messages and the length
    /// of `slots()`.
    pub proof fn lemma_slots_model(&self)
        ensures
            self.buffered() == live_of(self.slots()),
            self.slot_count() == self.slots().len(),
    {
    }

    /// The buffered messages are exactly the leading prefix of `pending()` of
    /// their own number: what was pulled from the channel first is owed to
    /// the caller first.
    pub proof fn lemma_buffered_is_prefix(&self)
        ensures
            self.buffered() == self.pending().take(self.buffered().len() as int),
    {
        assert(self.pending().take(self.buffered().len() as int) =~= self.buffered());
    }

    /// How many of `pending()` a selective receive may examine: every
    /// buffered message, plus fresh pulls until the buffer reaches the
    /// channel's max capacity. A call never looks past this bound.
    pub open spec fn scan_window(&self) -> int {
        self.buffered().len() + if self.slot_count() < self.cap() {
            self.cap() - self.slot_count()
        } else {
            0
        }
    }

    /// The buffer never outgrows the channel's max capacity; established by
    /// `new` and preserved by every operation.
    pub open spec fn wf(&self) -> bool {
        self.slot_count() <= self.cap()
    }

    pub fn new(inner: R) -> (sr: Self)
        ensures
            sr.pending() == inner.pending(),
            sr.buffered() == Seq::<T>::empty(),
            sr.slots() == Seq::<Option<T>>::empty(),
            sr.slot_count() == 0,
            sr.cap() == inner.cap(),
            sr.queued() == inner.queued(),
            sr.wf(),
    {
        let max_capacity = inner.max_capacity();
        let sr = SelectiveReceiver { inner, buffer: SelectiveBuffer::new(max_capacity) };
        proof {
            assert(sr.pending() =~= inner.pending());
        }
        sr
    }

    /// Delivers the earliest still-undelivered message satisfying the
    /// predicate, looking no further than `scan_window()` positions into
    /// `pending()`: first through the buffer, then by pulling fresh messages
    /// while the buffer is below the channel's max capacity. A pulled message
    /// that does not match is appended to the buffer, never discarded; once
    /// the buffer reaches the capacity the call returns no match, and a failed
    /// pull surfaces the channel's failure with every previously pulled
    /// message still buffered.
    #[verifier::loop_isolation(false)]
    pub fn recv_selectively<F: Fn(&T) -> bool>(&mut self, predicate: F) -> (r: Result<
        Option<T>,
        RecvError,
    >)
        requires
            forall|m: &T| call_requires(predicate, (m,)),
        ensures
            final(self).cap() == old(self).cap(),
            final(self).queued() <= old(self).queued(),
            old(self).wf() ==> final(self).wf(),
            match r {
                Ok(Some(m)) => exists|i: int|
                    {
                        &&& 0 <= i < old(self).pending().len()
                        &&& i < old(self).scan_window()
                        &&& m == old(self).pending()[i]
                        &&& call_ensures(predicate, (&m,), true)
                        &&& (forall|j: int|
                            0 <= j < i ==> call_ensures(
                                predicate,
                                (&old(self).pending()[j],),
                                false,
                            ))
                        &&& final(self).pending() == old(self).pending().remove(i)
                        &&& final(self).pending().to_multiset() == old(
                            self,
                        ).pending().to_multiset().remove(m)
                        &&& (i < old(self).buffered().len() ==> {
                            &&& final(self).buffered() == old(self).buffered().remove(i)
                            &&& final(self).slot_count() == old(self).slot_count()
                            &&& final(self).queued() == old(self).queued()
                            &&& (exists|p: int|
                                {
                                    &&& 0 <= p < old(self).slots().len()
                                    &&& old(self).slots()[p] == Some(m)
                                    &&& live_of(old(self).slots().take(p)).len() == i
                                    &&& final(self).slots() == old(self).slots().update(p, None)
                                })
                        })
                        &&& (i >= old(self).buffered().len() ==> {
                            &&& final(self).buffered() == old(self).buffered() + old(
                                self,
                            ).pending().subrange(old(self).buffered().len() as int, i)
                            &&& final(self).slot_count() == old(self).slot_count() + i - old(
                                self,
                            ).buffered().len()
                            &&& final(self).slots() == old(self).slots() + as_live_slots(
                                old(self).pending().subrange(old(self).buffered().len() as int, i),
                            )
                        })
                    },
                Ok(None) => {
                    &&& old(self).pending().len() >= old(self).scan_window()
                    &&& (forall|j: int|
                        0 <= j < old(self).scan_window() ==> call_ensures(
                            predicate,
                            (&old(self).pending()[j],),
                            false,
                        ))
                    &&& final(self).pending() == old(self).pending()
                    &&& final(self).buffered() == old(self).pending().take(old(self).scan_window())
                    &&& final(self).slots() == old(self).slots() + as_live_slots(
                        old(self).pending().subrange(
                            old(self).buffered().len() as int,
                            old(self).scan_window(),
                        ),
                    )
                    &&& final(self).slot_count() == if old(self).slot_count() < old(self).cap() {
                        old(self).cap() as nat
                    } else {
                        old(self).slot_count()
                    }
                },
                Err(e) => {
                    &&& old(self).pending().len() < old(self).scan_window()
                    &&& (forall|j: int|
                        0 <= j < old(self).pending().len() ==> call_ensures(
                            predicate,
                            (&old(self).pending()[j],),
                            false,
                        ))
                    &&& final(self).pending() == old(self).pending()
                    &&& final(self).buffered() == old(self).pending()
                    &&& final(self).slots() == old(self).slots() + as_live_slots(
                        old(self).pending().subrange(
                            old(self).buffered().len() as int,
                            old(self).pending().len() as int,
                        ),
                    )
                    &&& final(self).slot_count() == old(self).slot_count() + old(
                        self,
                    ).pending().len() - old(self).buffered().len()
                },
            },
    {
        let ghost o_live = self.buffer.live();
        let ghost o_chan = self.inner.pending();
        let ghost o_pend = o_live + o_chan;
        let ghost o_slots = self.buffer@;
        let ghost b0 = self.buffer@.len();
        let ghost cap = self.inner.cap();
        let ghost q0 = self.inner.queued();
        proof {
            assert(old(self).pending() == o_pend);
        }
        if let Some(message) = self.buffer.select(&predicate) {
            proof {
                let (i, p) = choose|i: int, p: int|
                    {
                        &&& 0 <= i < o_live.len()
                        &&& message == o_live[i]
                        &&& call_ensures(&predicate, (&message,), true)
                        &&& (forall|j: int|
                            0 <= j < i ==> call_ensures(&predicate, (&o_live[j],), false))
                        &&& self.buffer.live() == o_live.remove(i)
                        &&& 0 <= p < o_slots.len()
                        &&& o_slots[p] == Some(message)
                        &&& live_of(o_slots.take(p)).len() == i
                        &&& self.buffer@ == o_slots.update(p, None)
                    };
                assert(o_pend[i] == o_live[i]);
                assert forall|j: int| 0 <= j < i implies call_ensures(
                    predicate,
                    (&o_pend[j],),
                    false,
                ) by {
                    assert(o_pend[j] == o_live[j]);
                }
                assert(self.pending() =~= o_pend.remove(i));
                o_pend.to_multiset_ensures();
                assert(self.pending().to_multiset() =~= o_pend.to_multiset().remove(message));
                assert(i < old(self).scan_window());
                assert(self.buffered() == old(self).buffered().remove(i));
                assert(self.slot_count() == old(self).slot_count());
                assert(self.queued() == old(self).queued());
                assert(old(self).slots() == o_slots);
                assert(self.slots() == old(self).slots().update(p, None));
                assert(exists|q: int|
                    {
                        &&& 0 <= q < old(self).slots().len()
                        &&& old(self).slots()[q] == Some(message)
                        &&& live_of(old(self).slots().take(q)).len() == i
                        &&& self.slots() == old(self).slots().update(q, None)
                    });
                assert(exists|w: int|
                    {
                        &&& 0 <= w < old(self).pending().len()
                        &&& w < old(self).scan_window()
                        &&& message == old(self).pending()[w]
                        &&& call_ensures(predicate, (&message,), true)
                        &&& (forall|j: int|
                            0 <= j < w ==> call_ensures(
                                predicate,
                                (&old(self).pending()[j],),
                                false,
                            ))
                        &&& self.pending() == old(self).pending().remove(w)
                        &&& self.pending().to_multiset() == old(
                            self,
                        ).pending().to_multiset().remove(message)
                        &&& (w < old(self).buffered().len() ==> {
                            &&& self.buffered() == old(self).buffered().remove(w)
                            &&& self.slot_count() == old(self).slot_count()
                            &&& self.queued() == old(self).queued()
                            &&& (exists|q: int|
                                {
                                    &&& 0 <= q < old(self).slots().len()
                                    &&& old(self).slots()[q] == Some(message)
                                    &&& live_of(old(self).slots().take(q)).len() == w
                                    &&& self.slots() == old(self).slots().update(q, None)
                                })
                        })
                        &&& (w >= old(self).buffered().len() ==> {
                            &&& self.buffered() == old(self).buffered() + old(
                                self,
                            ).pending().subrange(old(self).buffered().len() as int, w)
                            &&& self.slot_count() == old(self).slot_count() + w - old(
                                self,
                            ).buffered().len()
                            &&& self.slots() == old(self).slots() + as_live_slots(
                                old(self).pending().subrange(old(self).buffered().len() as int, w),
                            )
                        })
                    });
            }
            return Ok(Some(message));
        }
        proof {
            assert(as_live_slots(o_chan.take(0)) =~= Seq::<Option<T>>::empty());
            assert(self.buffer@ =~= o_slots + as_live_slots(o_chan.take(0)));
        }
        while self.buffer.len() < self.inner.max_capacity()
            invariant
                forall|m: &T| call_requires(predicate, (m,)),
                self.inner.cap() == cap,
                self.inner.queued() <= q0,
                self.buffer@.len() >= b0,
                self.buffer@.len() - b0 <= o_chan.len(),
                self.inner.pending() == o_chan.skip(self.buffer@.len() - b0),
                self.buffer.live() == o_live + o_chan.take(self.buffer@.len() - b0),
                self.buffer@ == o_slots + as_live_slots(o_chan.take(self.buffer@.len() - b0)),
                forall|j: int|
                    0 <= j < o_live.len() + (self.buffer@.len() - b0) ==> call_ensures(
                        predicate,
                        (&o_pend[j],),
                        false,
                    ),
                b0 < cap ==> self.buffer@.len() <= cap,
                b0 >= cap ==> self.buffer@.len() == b0,
            decreases cap - self.buffer@.len(),
        {
            let ghost k = self.buffer@.len() - b0;
            let next_message = match self.inner.recv() {
                Ok(m) => m,
                Err(e) => {
                    proof {
                        assert(o_chan.skip(k).len() == 0);
                        assert(k == o_chan.len());
                        assert(o_chan.take(k) =~= o_chan);
                        assert(self.pending() =~= o_pend);
                        assert(self.buffered() =~= o_pend);
                        assert(old(self).slots() == o_slots);
                        assert(o_chan.take(k) =~= o_pend.subrange(
                            o_live.len() as int,
                            o_pend.len() as int,
                        ));
                        assert(self.slots() == old(self).slots() + as_live_slots(
                            old(self).pending().subrange(
                                old(self).buffered().len() as int,
                                old(self).pending().len() as int,
                            ),
                        ));
                    }
                    return Err(e);
                },
            };
            proof {
                assert(next_message == o_chan.skip(k)[0]);
                assert(o_chan.skip(k)[0] == o_chan[k]);
                assert(o_chan.skip(k).drop_first() =~= o_chan.skip(k + 1));
                assert(o_pend[o_live.len() + k] == o_chan[k]);
            }
            match self.buffer.offer(next_message, &predicate) {
                Some(hit) => {
                    proof {
                        let i = o_live.len() + k;
                        assert(self.pending() =~= o_pend.remove(i));
                        assert(o_chan.take(k) =~= o_pend.subrange(o_live.len() as int, i));
                        o_pend.to_multiset_ensures();
                        assert(self.pending().to_multiset() =~= o_pend.to_multiset().remove(hit));
                        assert(b0 < cap);
                        assert(i < old(self).scan_window());
                        assert(hit == o_pend[i]);
                        assert(self.buffered() == old(self).buffered() + old(
                            self,
                        ).pending().subrange(old(self).buffered().len() as int, i));
                        assert(self.slot_count() == old(self).slot_count() + i - old(
                            self,
                        ).buffered().len());
                        assert(old(self).slots() == o_slots);
                        assert(self.slots() == old(self).slots() + as_live_slots(
                            old(self).pending().subrange(old(self).buffered().len() as int, i),
                        ));
                        // The existential below is instantiated by matching on
                        // this term, which no other fact on this path mentions.
                        let buffer_delivery = old(self).buffered().remove(i);
                        assert(exists|w: int|
                            {
                                &&& 0 <= w < old(self).pending().len()
                                &&& w < old(self).scan_window()
                                &&& hit == old(self).pending()[w]
                                &&& call_ensures(predicate, (&hit,), true)
                                &&& (forall|j: int|
                                    0 <= j < w ==> call_ensures(
                                        predicate,
                                        (&old(self).pending()[j],),
                                        false,
                                    ))
                                &&& self.pending() == old(self).pending().remove(w)
                                &&& self.pending().to_multiset() == old(
                                    self,
                                ).pending().to_multiset().remove(hit)
                                &&& (w < old(self).buffered().len() ==> {
                                    &&& self.buffered() == old(self).buffered().remove(w)
                                    &&& self.slot_count() == old(self).slot_count()
                                    &&& self.queued() == old(self).queued()
                                    &&& (exists|q: int|
                                        {
                                            &&& 0 <= q < old(self).slots().len()
                                            &&& old(self).slots()[q] == Some(hit)
                                            &&& live_of(old(self).slots().take(q)).len() == w
                                            &&& self.slots() == old(self).slots().update(q, None)
                                        })
                                })
                                &&& (w >= old(self).buffered().len() ==> {
                                    &&& self.buffered() == old(self).buffered() + old(
                                        self,
                                    ).pending().subrange(old(self).buffered().len() as int, w)
                                    &&& self.slot_count() == old(self).slot_count() + w - old(
                                        self,
                                    ).buffered().len()
                                    &&& self.slots() == old(self).slots() + as_live_slots(
                                        old(self).pending().subrange(
                                            old(self).buffered().len() as int,
                                            w,
                                        ),
                                    )
                                })
                            });
                    }
                    return Ok(Some(hit));
                },
                None => {
                    proof {
                        assert(o_chan.take(k + 1) =~= o_chan.take(k).push(o_chan[k]));
                        assert(self.buffer.live() =~= o_live + o_chan.take(k + 1));
                        assert(as_live_slots(o_chan.take(k + 1)) =~= as_live_slots(
                            o_chan.take(k),
                        ).push(Some(o_chan[k])));
                        assert(self.buffer@ =~= o_slots + as_live_slots(o_chan.take(k + 1)));
                    }
                },
            }
        }
        proof {
            let k = self.buffer@.len() - b0;
            assert(o_live + o_chan.take(k) =~= o_pend.take(o_live.len() + k));
            assert(self.pending() =~= o_pend);
            assert(old(self).slots() == o_slots);
            assert(o_live.len() + k == old(self).scan_window());
            assert(o_chan.take(k) =~= o_pend.subrange(
                o_live.len() as int,
                old(self).scan_window(),
            ));
            assert(self.slots() == old(self).slots() + as_live_slots(
                old(self).pending().subrange(
                    old(self).buffered().len() as int,
                    old(self).scan_window(),
                ),
            ));
        }
        Ok(None)
    }
}

impl<T> SelectiveReceiver<Mailbox<T>, T> {
    /// What `len` reports on a mailbox-backed selective receiver: the
    /// messages still inside the wrapped mailbox, that is `pending()` without
    /// the buffered messages. Messages already pulled into the internal
    /// buffer are not counted, in every state the receiver can reach.
    pub proof fn lemma_len_counts_channel_only(&self)
        ensures
            self.queued() == self.pending().len() - self.buffered().len(),
    {
        self.inner.lemma_queued_matches_pending();
    }
}

impl<R, T> Receiver<T> for SelectiveReceiver<R, T> where R: Receiver<T> {
    closed spec fn pending(&self) -> Seq<T> {
        self.buffer.live() + self.inner.pending()
    }

    closed spec fn queued(&self) -> nat {
        self.inner.queued()
    }

    closed spec fn cap(&self) -> usize {
        self.inner.cap()
    }

    /// The plain receive: a delivery out of the buffer pops the leading
    /// tombstones and the frontmost live slot, and leaves the wrapped channel
    /// — and so the queued count that `len` reports — untouched; with nothing
    /// live buffered, the remaining tombstones are drained and the call hands
    /// over to the wrapped channel's receive.
    fn recv(&mut self) -> (r: Result<T, RecvError>)
        ensures
            old(self).buffered().len() > 0 ==> final(self).queued() == old(self).queued(),
            old(self).buffered().len() > 0 ==> final(self).slots() == old(self).slots().skip(
                leading_tombstones(old(self).slots()) + 1,
            ),
            old(self).buffered().len() == 0 ==> final(self).slots() == Seq::<Option<T>>::empty(),
            final(self).slot_count() <= old(self).slot_count(),
            old(self).wf() ==> final(self).wf(),
            final(self).buffered() == if old(self).buffered().len() > 0 {
                old(self).buffered().drop_first()
            } else {
                Seq::<T>::empty()
            },
    {
        let ghost o_live = self.buffer.live();
        let ghost o_chan = self.inner.pending();
        match self.buffer.pop_next() {
            Some(message) => {
                proof {
                    assert((o_live + o_chan)[0] == o_live[0]);
                    assert(self.pending() =~= (o_live + o_chan).drop_first());
                }
                Ok(message)
            },
            None => {
                proof {
                    assert(self.buffer@ =~= Seq::<Option<T>>::empty());
                    assert(old(self).pending() =~= o_chan);
                }
                let r = self.inner.recv();
                proof {
                    assert(self.buffer.live().len() == 0);
                    if o_chan.len() > 0 {
                        assert(self.pending() =~= o_chan.drop_first());
                        assert(self.pending() =~= old(self).pending().drop_first());
                    }
                }
                r
            },
        }
    }

    /// Reports the wrapped channel's own count; messages sitting in the
    /// internal buffer are not included. On a mailbox-backed receiver,
    /// `lemma_len_counts_channel_only` pins this to `pending()` minus the
    /// buffered messages.
    fn len(&self) -> (n: usize) {
        self.inner.len()
    }

    fn max_capacity(&self) -> (n: usize) {
        self.inner.max_capacity()
    }
}

} // verus!
