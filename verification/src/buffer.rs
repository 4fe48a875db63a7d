use vstd::prelude::*;

use std::collections::VecDeque;

verus! {

/// The messages held by the live slots of `slots`, in slot order. A `Some`
/// slot is live; a `None` slot is a tombstone left where a message has already
/// been delivered.
pub open spec fn live_of<T>(slots: Seq<Option<T>>) -> Seq<T>
    decreases slots.len(),
{
    if slots.len() == 0 {
        Seq::<T>::empty()
    } else {
        match slots[0] {
            Some(m) => seq![m] + live_of(slots.drop_first()),
            None => live_of(slots.drop_first()),
        }
    }
}

/// Appending a live slot appends its message to the live sequence.
pub proof fn lemma_live_of_push_live<T>(slots: Seq<Option<T>>, message: T)
    ensures
        live_of(slots.push(Some(message))) == live_of(slots).push(message),
    decreases slots.len(),
{
    if slots.len() == 0 {
        reveal_with_fuel(live_of, 2);
        assert(slots.push(Some(message)).drop_first() =~= Seq::<Option<T>>::empty());
        assert(live_of(slots.push(Some(message))) =~= live_of(slots).push(message));
    } else {
        let rest = slots.drop_first();
        lemma_live_of_push_live(rest, message);
        assert(slots.push(Some(message)).drop_first() =~= rest.push(Some(message)));
        match slots[0] {
            Some(h) => {
                assert(seq![h] + live_of(rest).push(message) =~= (seq![h] + live_of(rest)).push(
                    message,
                ));
            },
            None => {},
        }
    }
}

/// Appending a tombstone leaves the live sequence unchanged.
pub proof fn lemma_live_of_push_tombstone<T>(slots: Seq<Option<T>>)
    ensures
        live_of(slots.push(None)) == live_of(slots),
    decreases slots.len(),
{
    if slots.len() == 0 {
        reveal_with_fuel(live_of, 2);
        assert(slots.push(None).drop_first() =~= Seq::<Option<T>>::empty());
        assert(live_of(slots.push(None)) =~= live_of(slots));
    } else {
        let rest = slots.drop_first();
        lemma_live_of_push_tombstone(rest);
        assert(slots.push(None).drop_first() =~= rest.push(None));
    }
}

/// The live sequence splits at any slot boundary.
pub proof fn lemma_live_of_split<T>(slots: Seq<Option<T>>, k: int)
    requires
        0 <= k <= slots.len(),
    ensures
        live_of(slots) == live_of(slots.take(k)) + live_of(slots.skip(k)),
    decreases k,
{
    if k == 0 {
        reveal_with_fuel(live_of, 2);
        assert(slots.take(0) =~= Seq::<Option<T>>::empty());
        assert(slots.skip(0) =~= slots);
        assert(live_of(slots.take(0)) + live_of(slots) =~= live_of(slots));
    } else {
        let rest = slots.drop_first();
        lemma_live_of_split(rest, k - 1);
        assert(slots.take(k).drop_first() =~= rest.take(k - 1));
        assert(slots.skip(k) =~= rest.skip(k - 1));
        assert(slots.take(k)[0] == slots[0]);
        match slots[0] {
            Some(h) => {
                assert(seq![h] + (live_of(rest.take(k - 1)) + live_of(rest.skip(k - 1))) =~= (
                seq![h] + live_of(rest.take(k - 1))) + live_of(rest.skip(k - 1)));
            },
            None => {},
        }
    }
}

/// The number of tombstones in front of the first live slot; the whole
/// length when no slot is live.
pub open spec fn leading_tombstones<T>(slots: Seq<Option<T>>) -> int
    decreases slots.len(),
{
    if slots.len() == 0 {
        0
    } else {
        match slots[0] {
            Some(m) => 0,
            None => 1 + leading_tombstones(slots.drop_first()),
        }
    }
}

/// An all-tombstone prefix followed by a live slot places the first live
/// slot exactly behind the tombstones.
pub proof fn lemma_leading_tombstones_at<T>(slots: Seq<Option<T>>, n: int)
    requires
        0 <= n < slots.len(),
        forall|j: int| 0 <= j < n ==> slots[j] is None,
        slots[n] is Some,
    ensures
        leading_tombstones(slots) == n,
    decreases n,
{
    if n == 0 {
    } else {
        let rest = slots.drop_first();
        assert(slots[0] is None);
        assert(forall|j: int| 0 <= j < n - 1 ==> rest[j] == slots[j + 1] && rest[j] is None);
        assert(rest[n - 1] == slots[n]);
        lemma_leading_tombstones_at(rest, n - 1);
    }
}

/// The messages of `s`, each held in a live slot.
pub open spec fn as_live_slots<T>(s: Seq<T>) -> Seq<Option<T>> {
    s.map_values(|x: T| Some(x))
}

/// The ordered holding area for messages already pulled from a channel but not
/// yet delivered to any caller. Each slot is either live (`Some`) or a
/// tombstone (`None`) marking a position whose message has already been
/// delivered; delivering from the middle converts the slot in place instead of
/// shifting its successors.
pub struct SelectiveBuffer<T> {
    slots: VecDeque<Option<T>>,
}

impl<T> View for SelectiveBuffer<T> {
    type V = Seq<Option<T>>;

    closed spec fn view(&self) -> Seq<Option<T>> {
        self.slots@
    }
}

impl<T> SelectiveBuffer<T> {
    /// The buffered messages still owed to callers, in arrival order.
    pub open spec fn live(&self) -> Seq<T> {
        live_of(self@)
    }

    /// Creates an empty buffer; `capacity` is only a reservation hint.
    pub fn new(capacity: usize) -> (b: Self)
        ensures
            b@ == Seq::<Option<T>>::empty(),
    {
        SelectiveBuffer { slots: VecDeque::with_capacity(capacity) }
    }

    /// The number of slots, tombstones included.
    pub fn len(&self) -> (n: usize)
        ensures
            n == self@.len(),
    {
        self.slots.len()
    }

    /// Delivers the earliest buffered message satisfying the predicate, if
    /// any, converting its slot to a tombstone in place; every earlier live
    /// message was offered to the predicate and refused.
    #[verifier::loop_isolation(false)]
    pub fn select<F: Fn(&T) -> bool>(&mut self, predicate: F) -> (r: Option<T>)
        requires
            forall|m: &T| call_requires(predicate, (m,)),
        ensures
            final(self)@.len() == old(self)@.len(),
            match r {
                Some(m) => exists|i: int, p: int|
                    {
                        &&& 0 <= i < old(self).live().len()
                        &&& m == old(self).live()[i]
                        &&& call_ensures(predicate, (&m,), true)
                        &&& (forall|j: int|
                            0 <= j < i ==> call_ensures(predicate, (&old(self).live()[j],), false))
                        &&& final(self).live() == old(self).live().remove(i)
                        &&& 0 <= p < old(self)@.len()
                        &&& old(self)@[p] == Some(m)
                        &&& live_of(old(self)@.take(p)).len() == i
                        &&& final(self)@ == old(self)@.update(p, None)
                    },
                None => {
                    &&& (forall|j: int|
                        0 <= j < old(self).live().len() ==> call_ensures(
                            predicate,
                            (&old(self).live()[j],),
                            false,
                        ))
                    &&& final(self)@ == old(self)@
                },
            },
    {
        let ghost pre = self.slots@;
        let mut idx: usize = 0;
        while idx < self.slots.len()
            invariant
                forall|m: &T| call_requires(predicate, (m,)),
                idx <= self.slots@.len(),
                self.slots@ == pre,
                forall|j: int|
                    0 <= j < live_of(pre.take(idx as int)).len() ==> call_ensures(
                        predicate,
                        (&live_of(pre.take(idx as int))[j],),
                        false,
                    ),
            decreases self.slots@.len() - idx,
        {
            let ghost scanned = live_of(pre.take(idx as int));
            proof {
                lemma_live_of_split(pre, idx as int);
                assert(pre.skip(idx as int)[0] == pre[idx as int]);
                assert(pre.skip(idx as int).drop_first() =~= pre.skip(idx as int + 1));
            }
            match self.slots[idx].as_ref() {
                Some(message) => {
                    if predicate(message) {
                        let taken = self.slots.remove(idx);
                        self.slots.insert(idx, None);
                        match taken {
                            Some(slot) => {
                                proof {
                                    let m = slot->Some_0;
                                    let i = scanned.len() as int;
                                    let post = self.slots@;
                                    assert(post =~= pre.update(idx as int, None));
                                    lemma_live_of_split(post, idx as int);
                                    assert(post.take(idx as int) =~= pre.take(idx as int));
                                    assert(post.skip(idx as int)[0] is None);
                                    assert(post.skip(idx as int).drop_first() =~= pre.skip(
                                        idx as int + 1,
                                    ));
                                    assert(live_of(pre) == scanned + (seq![m] + live_of(
                                        pre.skip(idx as int + 1),
                                    )));
                                    assert(live_of(pre)[i] == m);
                                    assert(live_of(post) == scanned + live_of(
                                        pre.skip(idx as int + 1),
                                    ));
                                    assert(live_of(post) =~= live_of(pre).remove(i));
                                    assert(forall|j: int|
                                        0 <= j < i ==> call_ensures(
                                            predicate,
                                            (&live_of(pre)[j],),
                                            false,
                                        ));
                                    assert(old(self).live() == live_of(pre));
                                    assert(m == old(self).live()[i]);
                                    assert(self.live() == old(self).live().remove(i));
                                    assert(forall|j: int|
                                        0 <= j < i ==> call_ensures(
                                            predicate,
                                            (&old(self).live()[j],),
                                            false,
                                        ));
                                    assert(pre[idx as int] == Some(m));
                                    assert(live_of(old(self)@.take(idx as int)).len() == i);
                                    assert(self@ == old(self)@.update(idx as int, None));
                                    assert(exists|w: int, q: int|
                                        {
                                            &&& 0 <= w < old(self).live().len()
                                            &&& m == old(self).live()[w]
                                            &&& call_ensures(predicate, (&m,), true)
                                            &&& (forall|j: int|
                                                0 <= j < w ==> call_ensures(
                                                    predicate,
                                                    (&old(self).live()[j],),
                                                    false,
                                                ))
                                            &&& self.live() == old(self).live().remove(w)
                                            &&& 0 <= q < old(self)@.len()
                                            &&& old(self)@[q] == Some(m)
                                            &&& live_of(old(self)@.take(q)).len() == w
                                            &&& self@ == old(self)@.update(q, None)
                                        });
                                }
                                return slot;
                            },
                            None => {
                                // Not reachable: the loop condition keeps idx
                                // below the slot count, so a slot was removed.
                                return None;
                            },
                        }
                    }
                },
                None => {},
            }
            proof {
                assert(pre.take(idx as int + 1) =~= pre.take(idx as int).push(pre[idx as int]));
                match pre[idx as int] {
                    Some(m) => {
                        lemma_live_of_push_live(pre.take(idx as int), m);
                        assert(live_of(pre.take(idx as int + 1)) =~= scanned.push(m));
                    },
                    None => {
                        lemma_live_of_push_tombstone(pre.take(idx as int));
                    },
                }
            }
            idx += 1;
        }
        proof {
            assert(pre.take(pre.len() as int) =~= pre);
        }
        None
    }

    /// Offers a freshly pulled message to the predicate: a match is returned
    /// without being buffered, while any other message is appended as a live
    /// slot for later retrieval.
    pub fn offer<F: Fn(&T) -> bool>(&mut self, message: T, predicate: F) -> (r: Option<T>)
        requires
            call_requires(predicate, (&message,)),
        ensures
            match r {
                Some(m) => {
                    &&& m == message
                    &&& call_ensures(predicate, (&message,), true)
                    &&& *final(self) == *old(self)
                },
                None => {
                    &&& call_ensures(predicate, (&message,), false)
                    &&& final(self)@ == old(self)@.push(Some(message))
                    &&& final(self).live() == old(self).live().push(message)
                },
            },
    {
        if predicate(&message) {
            Some(message)
        } else {
            proof {
                lemma_live_of_push_live(self.slots@, message);
            }
            self.slots.push_back(Some(message));
            None
        }
    }

    /// Delivers the oldest buffered message, discarding the tombstones in
    /// front of it; leaves the buffer empty when no live message remains.
    pub fn pop_next(&mut self) -> (r: Option<T>)
        ensures
            final(self)@.len() <= old(self)@.len(),
            match r {
                Some(m) => {
                    &&& old(self).live().len() > 0
                    &&& m == old(self).live()[0]
                    &&& final(self).live() == old(self).live().drop_first()
                    &&& final(self)@ == old(self)@.skip(leading_tombstones(old(self)@) + 1)
                },
                None => {
                    &&& old(self).live().len() == 0
                    &&& final(self)@ == Seq::<Option<T>>::empty()
                },
            },
    {
        let ghost start = self.slots@;
        loop
            invariant
                live_of(self.slots@) == live_of(start),
                self.slots@.len() <= start.len(),
                self.slots@ == start.skip(start.len() - self.slots@.len()),
                forall|j: int| 0 <= j < start.len() - self.slots@.len() ==> start[j] is None,
                start == old(self).slots@,
            decreases self.slots@.len(),
        {
            let ghost n = start.len() - self.slots@.len();
            let ghost pre = self.slots@;
            match self.slots.pop_front() {
                Some(slot) => {
                    proof {
                        assert(self.slots@ =~= pre.drop_first());
                        assert(self.slots@ =~= start.skip(n + 1));
                        assert(slot == start[n]);
                    }
                    match slot {
                        Some(message) => {
                            proof {
                                lemma_leading_tombstones_at(start, n);
                                assert(live_of(pre) == seq![message] + live_of(pre.drop_first()));
                                assert(live_of(pre)[0] == message);
                                assert(live_of(pre.drop_first()) =~= live_of(pre).drop_first());
                            }
                            return Some(message);
                        },
                        None => {},
                    }
                },
                None => {
                    proof {
                        assert(self.slots@ =~= Seq::<Option<T>>::empty());
                    }
                    return None;
                },
            }
        }
    }
}

} // verus!
