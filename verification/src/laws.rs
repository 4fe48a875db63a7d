use vstd::prelude::*;

verus! {

/// The position of the earliest message among the first `bound` positions of
/// `s` that satisfies `p`, if any.
pub open spec fn first_match_within<T>(s: Seq<T>, bound: int, p: spec_fn(T) -> bool) -> Option<int>
    decreases s.len(),
{
    if s.len() == 0 || bound <= 0 {
        None
    } else if p(s[0]) {
        Some(0)
    } else {
        match first_match_within(s.drop_first(), bound - 1, p) {
            Some(i) => Some(i + 1),
            None => None,
        }
    }
}

/// A predicate call is a pure function of the message: every call on `m` can
/// only return `p(m)`.
pub open spec fn decided_by<T, F: Fn(&T) -> bool>(predicate: F, p: spec_fn(T) -> bool) -> bool {
    forall|m: &T, b: bool| call_ensures(predicate, (m,), b) ==> b == p(*m)
}

proof fn lemma_first_match_within_at<T>(s: Seq<T>, bound: int, p: spec_fn(T) -> bool, i: int)
    requires
        0 <= i < s.len(),
        i < bound,
        p(s[i]),
        forall|j: int| 0 <= j < i ==> !p(s[j]),
    ensures
        first_match_within(s, bound, p) == Some(i),
    decreases i,
{
    if i == 0 {
    } else {
        assert(!p(s[0]));
        let rest = s.drop_first();
        assert(rest[i - 1] == s[i]);
        assert(forall|j: int| 0 <= j < i - 1 ==> rest[j] == s[j + 1] && !p(rest[j]));
        lemma_first_match_within_at(rest, bound - 1, p, i - 1);
    }
}

proof fn lemma_first_match_within_none<T>(s: Seq<T>, bound: int, p: spec_fn(T) -> bool)
    requires
        forall|j: int| 0 <= j < bound && j < s.len() ==> !p(s[j]),
    ensures
        first_match_within(s, bound, p) == None::<int>,
    decreases s.len(),
{
    if s.len() == 0 || bound <= 0 {
    } else {
        let rest = s.drop_first();
        assert(forall|j: int| 0 <= j < bound - 1 && j < rest.len() ==> rest[j] == s[j + 1] && !p(
            rest[j],
        ));
        lemma_first_match_within_none(rest, bound - 1, p);
    }
}

/// Law: for every sequence of still-undelivered messages and every predicate
/// that is a pure function of the message, a delivery at position `i` whose
/// earlier positions were all refused is the earliest match within the scan
/// window. Together with the contract of `recv_selectively`, whose successful
/// outcome supplies exactly these facts about `pending()`, this says that a
/// selective receive delivers the earliest-arrived still-undelivered message
/// satisfying the predicate.
pub proof fn lemma_selective_delivery_is_earliest<T, F: Fn(&T) -> bool>(
    predicate: F,
    p: spec_fn(T) -> bool,
    s: Seq<T>,
    bound: int,
    i: int,
)
    requires
        decided_by(predicate, p),
        0 <= i < s.len(),
        i < bound,
        call_ensures(predicate, (&s[i],), true),
        forall|j: int| 0 <= j < i ==> call_ensures(predicate, (&s[j],), false),
    ensures
        p(s[i]),
        forall|j: int| 0 <= j < i ==> !p(s[j]),
        first_match_within(s, bound, p) == Some(i),
{
    assert(p(s[i]));
    assert forall|j: int| 0 <= j < i implies !p(s[j]) by {
        assert(call_ensures(predicate, (&s[j],), false));
    }
    lemma_first_match_within_at(s, bound, p, i);
}

/// Law: for every sequence of still-undelivered messages and every predicate
/// that is a pure function of the message, refusing every position of the scan
/// window means no match exists within it. Together with the contract of
/// `recv_selectively`, whose no-match outcome supplies exactly these facts
/// about `pending()` with `bound == scan_window()`, this says that a selective
/// receive reports no match exactly when the capacity-bounded scan window
/// holds no matching message.
pub proof fn lemma_no_match_within_window<T, F: Fn(&T) -> bool>(
    predicate: F,
    p: spec_fn(T) -> bool,
    s: Seq<T>,
    bound: int,
)
    requires
        decided_by(predicate, p),
        forall|j: int| 0 <= j < bound && j < s.len() ==> call_ensures(predicate, (&s[j],), false),
    ensures
        forall|j: int| 0 <= j < bound && j < s.len() ==> !p(s[j]),
        first_match_within(s, bound, p) == None::<int>,
{
    assert forall|j: int| 0 <= j < bound && j < s.len() implies !p(s[j]) by {
        assert(call_ensures(predicate, (&s[j],), false));
    }
    lemma_first_match_within_none(s, bound, p);
}

/// Law: a delivery out of the middle of the still-undelivered messages removes
/// exactly the delivered occurrence; every skipped message keeps its place
/// before the delivered position and moves up by exactly one after it, so the
/// skipped messages keep their original relative order and are the ones later
/// plain receives deliver, in that order.
pub proof fn lemma_delivery_keeps_order<T>(s: Seq<T>, i: int)
    requires
        0 <= i < s.len(),
    ensures
        s.remove(i).len() == s.len() - 1,
        forall|j: int| 0 <= j < i ==> s.remove(i)[j] == s[j],
        forall|j: int| i <= j < s.len() - 1 ==> s.remove(i)[j] == s[j + 1],
{
}

/// Law: a delivery removes exactly one occurrence of the delivered message
/// from the still-undelivered messages, and touches no other message's count.
/// Together with the contracts of `recv` and `recv_selectively`, which only
/// ever deliver out of `pending()`, this says that a message delivered once is
/// never delivered again.
pub proof fn lemma_delivered_occurrence_is_spent<T>(s: Seq<T>, i: int)
    requires
        0 <= i < s.len(),
    ensures
        s.remove(i).to_multiset().count(s[i]) == s.to_multiset().count(s[i]) - 1,
        forall|m: T| m != s[i] ==> s.remove(i).to_multiset().count(m) == s.to_multiset().count(m),
{
    s.to_multiset_ensures();
    assert(s.remove(i).to_multiset() =~= s.to_multiset().remove(s[i]));
}

} // verus!
