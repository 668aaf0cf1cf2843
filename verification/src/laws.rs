//! The lock's global guarantees, stated once over the whole model and
//! proved from its invariant.

use vstd::prelude::*;
use crate::lock::MCSLock;
use crate::lock::Phase;

verus! {

/// Mutual exclusion: two nodes that both stand in `Holder` are the same
/// node.  Every read or write of the protected value demands the owner's
/// guard, so critical sections never overlap and no update can be lost to a
/// concurrent one.
pub proof fn lemma_mutual_exclusion<T>(s: MCSLock<T>, a: usize, b: usize)
    requires
        s.inv(),
        s.is_holder(a),
        s.is_holder(b),
    ensures
        a == b,
{
    s.lemma_holder_head(a);
    s.lemma_holder_head(b);
}

/// First-come-first-served fairness: at every reachable state, the order in
/// which nodes have entered their critical sections is exactly the order in
/// which their tail swaps completed — entry history is a prefix of enqueue
/// history.
pub proof fn lemma_fifo<T>(s: MCSLock<T>)
    requires
        s.inv(),
    ensures
        s.entered@.len() <= s.enqueued@.len(),
        s.entered@ == s.enqueued@.take(s.entered@.len() as int),
{
    if s.q().len() > 0 && s.node_at(s.q()[0]).phase == Phase::Holder {
        assert(s.enqueued@ == s.entered@ + s.q().drop_first());
        assert(s.enqueued@.take(s.entered@.len() as int) =~= s.entered@);
    } else {
        assert(s.enqueued@ == s.entered@ + s.q());
        assert(s.enqueued@.take(s.entered@.len() as int) =~= s.entered@);
    }
}

/// Every fully enqueued waiter behind the head still has its wait flag set:
/// together with the head's clear flag (`head_ok`), at most one node in the
/// published queue believes the lock is, or may become, its.
pub proof fn lemma_waiters_stay_locked<T>(s: MCSLock<T>, k: int)
    requires
        s.inv(),
        1 <= k < s.q().len(),
        s.phase_of(s.q()[k]) != Phase::GotPrev,
    ensures
        s.node_at(s.q()[k]).locked,
{
    assert(s.mid_ok(k));
}

/// The tail is empty exactly when no node holds or awaits the lock.
pub proof fn lemma_tail_empty_iff_queue_empty<T>(s: MCSLock<T>)
    requires
        s.inv(),
    ensures
        s.last is None <==> s.q().len() == 0,
{
}

/// The two-step enqueue race closes: whenever the node right behind the
/// owner has completed its publish store, the owner's `next` already names
/// it, so the release wait loop's next poll observes a successor — a
/// delayed publish can stall the release only until the publish lands,
/// never lose the handoff.
pub proof fn lemma_publish_closes_race<T>(s: MCSLock<T>)
    requires
        s.inv(),
        s.q().len() >= 2,
        s.phase_of(s.q()[1]) == Phase::Waiting,
    ensures
        s.node_at(s.q()[0]).next == Some(s.q()[1]),
{
    assert(s.link_ok(0));
}

} // verus!
