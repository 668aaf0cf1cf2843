//! The queue-lock core: lock state, per-acquisition nodes, the guard, and
//! one function per shared-memory operation of the acquire and release
//! protocols.

use vstd::prelude::*;
use vstd::pervasive::VecAdditionalExecFns;

verus! {

/// Progress of one node through a single acquisition.
///
/// A contended acquisition passes through
/// `Idle -> GotPrev -> LockedSet -> Waiting -> Holder -> Idle`;
/// an uncontended one goes `Idle -> Holder -> Idle` straight from the tail
/// swap.
#[derive(Clone, Copy, PartialEq, Eq, Structural, Debug)]
pub enum Phase {
    /// Outside the queue; the node may start a fresh acquisition.
    Idle,
    /// The tail swap returned a predecessor; `locked` is not yet set.
    GotPrev,
    /// `locked` is set; the node is not yet published to its predecessor.
    LockedSet,
    /// Published into the predecessor's `next`; spinning on `locked`.
    Waiting,
    /// Owns the lock: its thread may touch the protected value and release.
    Holder,
}

/// One queue node: the per-acquisition record.
///
/// `next` and `locked` stand for the node's two atomic fields; `prev` stands
/// for the acquiring thread's local copy of the old tail; `phase` records how
/// far the node has come through the protocol.
#[derive(Clone, Copy, Debug)]
pub struct MCSNode {
    /// Stored by this node's successor during enqueue, never by this node
    /// itself; cleared when this node leaves the queue.
    pub next: Option<usize>,
    /// `true` while the node still waits for its predecessor's handoff.
    pub locked: bool,
    /// The previous tail, as remembered by the acquiring thread.
    pub prev: Option<usize>,
    /// Protocol position.
    pub phase: Phase,
}

impl MCSNode {
    /// A node at rest: every field back at its freshly built value.
    pub open spec fn is_idle(self) -> bool {
        &&& self.phase == Phase::Idle
        &&& self.next is None
        &&& !self.locked
        &&& self.prev is None
    }
}

/// Witness that one node currently owns the lock.  Handed out when an
/// acquisition completes and given back to the release steps.
#[derive(Clone, Copy, Debug)]
pub struct MCSLockGuard {
    /// The owning node's index in the lock's arena.
    pub node: usize,
}

/// The shared lock state: the atomic tail, the arena of nodes, and the
/// protected value, together with the ghost queue and history that the
/// contracts speak of.
///
/// `queue` lists the nodes between their tail swap and their departure, in
/// swap order: `queue[0]` owns the lock, `queue.last()` is what `last` points
/// at.  `enqueued` and `entered` record, over all time, the order of tail
/// swaps and the order of critical-section entries; fairness is the statement
/// that the second is a prefix of the first.
pub struct MCSLock<T> {
    /// The atomic tail: index of the most recently enqueued node, or `None`
    /// when no thread holds or awaits the lock.
    pub last: Option<usize>,
    /// The arena: one entry per node ever issued by `get_locker`.
    pub nodes: Vec<MCSNode>,
    /// The protected value.
    pub data: T,
    /// Nodes currently in the queue, in tail-swap order, owner first.
    pub queue: Ghost<Seq<usize>>,
    /// Every tail swap ever performed, in order.
    pub enqueued: Ghost<Seq<usize>>,
    /// Every critical-section entry ever made, in order.
    pub entered: Ghost<Seq<usize>>,
}

impl<T> MCSLock<T> {
    /// How many nodes the arena holds.
    pub open spec fn n_nodes(self) -> nat {
        self.nodes@.len()
    }

    /// `n` is an index the arena covers.
    pub open spec fn wf_node(self, n: usize) -> bool {
        n < self.nodes@.len()
    }

    /// The node at index `n`.
    pub open spec fn node_at(self, n: usize) -> MCSNode {
        self.nodes@[n as int]
    }

    /// The queue of in-flight acquisitions, owner first.
    pub open spec fn q(self) -> Seq<usize> {
        self.queue@
    }

    /// `n` is somewhere in the queue.
    pub open spec fn in_queue(self, n: usize) -> bool {
        exists|k: int| 0 <= k < self.q().len() && self.q()[k] == n
    }

    /// The protocol position of node `n`.
    pub open spec fn phase_of(self, n: usize) -> Phase {
        self.node_at(n).phase
    }

    /// Node `n` currently owns the lock.
    pub open spec fn is_holder(self, n: usize) -> bool {
        self.wf_node(n) && self.phase_of(n) == Phase::Holder
    }

    /// Guard `g` is the current owner's witness.
    pub open spec fn holds(self, g: MCSLockGuard) -> bool {
        self.is_holder(g.node)
    }

    /// The queue holds valid, pairwise distinct indices, and `last` points at
    /// its final member.
    pub open spec fn queue_wf(self) -> bool {
        &&& forall|k: int| 0 <= k < self.q().len() ==> self.wf_node(#[trigger] self.q()[k])
        &&& forall|k1: int, k2: int|
                0 <= k1 < k2 < self.q().len() ==> self.q()[k1] != self.q()[k2]
        &&& self.last == (if self.q().len() == 0 {
                None::<usize>
            } else {
                Some(self.q().last())
            })
    }

    /// The queue's first member either owns the lock or has been handed it
    /// and not yet noticed; its wait flag is clear either way.
    pub open spec fn head_ok(self) -> bool {
        let nd = self.node_at(self.q()[0]);
        &&& (nd.phase == Phase::Holder || nd.phase == Phase::Waiting)
        &&& !nd.locked
    }

    /// A queue member behind the head is still acquiring: it remembers the
    /// member before it as its predecessor, and its wait flag is set once the
    /// `GotPrev` step is past.
    pub open spec fn mid_ok(self, k: int) -> bool {
        let nd = self.node_at(self.q()[k]);
        &&& (nd.phase == Phase::GotPrev || nd.phase == Phase::LockedSet
                || nd.phase == Phase::Waiting)
        &&& nd.prev == Some(self.q()[k - 1])
        &&& nd.locked == (nd.phase != Phase::GotPrev)
    }

    /// Phase and flag constraints on every queue member.
    pub open spec fn members_wf(self) -> bool {
        &&& (self.q().len() > 0 ==> self.head_ok())
        &&& forall|k: int| 1 <= k < self.q().len() ==> #[trigger] self.mid_ok(k)
    }

    /// A member's `next` points at its queue successor exactly from the
    /// moment that successor publishes itself (reaches `Waiting`); before
    /// that, and at the queue's end, it is `None`.
    pub open spec fn link_ok(self, k: int) -> bool {
        self.node_at(self.q()[k]).next == (
        if k + 1 < self.q().len() && self.node_at(self.q()[k + 1]).phase == Phase::Waiting {
            Some(self.q()[k + 1])
        } else {
            None::<usize>
        })
    }

    /// The `next` chain mirrors the queue as far as publishing has come.
    pub open spec fn links_wf(self) -> bool {
        forall|k: int| 0 <= k < self.q().len() ==> #[trigger] self.link_ok(k)
    }

    /// Every arena node outside the queue is fully reset.
    pub open spec fn outsiders_idle(self) -> bool {
        forall|n: usize|
            n < self.nodes@.len() && !self.in_queue(n) ==> (#[trigger] self.node_at(n)).is_idle()
    }

    /// The swap history splits into the entry history followed by the
    /// still-queued nodes; the head drops out of the remainder as soon as it
    /// has entered.  Fairness in one line: entries happen in swap order.
    pub open spec fn history_wf(self) -> bool {
        if self.q().len() > 0 && self.node_at(self.q()[0]).phase == Phase::Holder {
            self.enqueued@ == self.entered@ + self.q().drop_first()
        } else {
            self.enqueued@ == self.entered@ + self.q()
        }
    }

    /// The lock's invariant: established by `new`, preserved by every step.
    pub open spec fn inv(self) -> bool {
        &&& self.queue_wf()
        &&& self.members_wf()
        &&& self.links_wf()
        &&& self.outsiders_idle()
        &&& self.history_wf()
    }

    /// A node whose phase says it is mid-protocol stands in the queue; this
    /// returns its position.
    pub proof fn lemma_member_index(self, n: usize) -> (k: int)
        requires
            self.inv(),
            self.wf_node(n),
            self.phase_of(n) != Phase::Idle,
        ensures
            0 <= k < self.q().len(),
            self.q()[k] == n,
    {
        if !self.in_queue(n) {
            assert(self.node_at(n).is_idle());
            assert(false);
        }
        choose|k: int| 0 <= k < self.q().len() && self.q()[k] == n
    }

    /// The lock's owner is the queue's first member.
    pub proof fn lemma_holder_head(self, n: usize)
        requires
            self.inv(),
            self.is_holder(n),
        ensures
            self.q().len() > 0,
            self.q()[0] == n,
    {
        let k = self.lemma_member_index(n);
        if k >= 1 {
            assert(self.mid_ok(k));
            assert(false);
        }
    }

    /// An idle node stands outside the queue, fully reset.
    pub proof fn lemma_idle_outside(self, n: usize)
        requires
            self.inv(),
            self.wf_node(n),
            self.phase_of(n) == Phase::Idle,
        ensures
            !self.in_queue(n),
            self.node_at(n).is_idle(),
    {
        if self.in_queue(n) {
            let k = choose|k: int| 0 <= k < self.q().len() && self.q()[k] == n;
            if k == 0 {
                assert(self.head_ok());
            } else {
                assert(self.mid_ok(k));
            }
            assert(false);
        }
        assert(self.node_at(n).is_idle());
    }

    /// A fresh lock guarding `v`: empty queue, empty arena.
    pub fn new(v: T) -> (s: Self)
        ensures
            s.inv(),
            s.data == v,
            s.last is None,
            s.n_nodes() == 0,
            s.q() == Seq::<usize>::empty(),
            s.enqueued@ == Seq::<usize>::empty(),
            s.entered@ == Seq::<usize>::empty(),
    {
        MCSLock {
            last: None,
            nodes: Vec::new(),
            data: v,
            queue: Ghost(Seq::empty()),
            enqueued: Ghost(Seq::empty()),
            entered: Ghost(Seq::empty()),
        }
    }

    /// Issue a fresh node, ready for its first acquisition.  One node serves
    /// one thread, which may reuse it for any number of acquisitions.
    pub fn get_locker(&mut self) -> (n: usize)
        requires
            old(self).inv(),
        ensures
            final(self).inv(),
            n == old(self).n_nodes(),
            final(self).nodes@ == old(self).nodes@.push(
                MCSNode { next: None, locked: false, prev: None, phase: Phase::Idle },
            ),
            final(self).wf_node(n),
            final(self).phase_of(n) == Phase::Idle,
            final(self).last == old(self).last,
            final(self).data == old(self).data,
            final(self).q() == old(self).q(),
            final(self).enqueued@ == old(self).enqueued@,
            final(self).entered@ == old(self).entered@,
    {
        let n = self.nodes.len();
        self.nodes.push(MCSNode { next: None, locked: false, prev: None, phase: Phase::Idle });
        proof {
            let pre = *old(self);
            let post = *self;
            assert forall|k: int| 0 <= k < post.q().len() implies post.wf_node(
                #[trigger] post.q()[k],
            ) by {
                assert(pre.wf_node(pre.q()[k]));
            }
            assert forall|k: int| 1 <= k < post.q().len() implies #[trigger] post.mid_ok(k) by {
                assert(pre.mid_ok(k));
                assert(pre.wf_node(pre.q()[k]));
                assert(pre.wf_node(pre.q()[k - 1]));
            }
            assert forall|k: int| 0 <= k < post.q().len() implies #[trigger] post.link_ok(k) by {
                assert(pre.link_ok(k));
                assert(pre.wf_node(pre.q()[k]));
                if k + 1 < pre.q().len() {
                    assert(pre.wf_node(pre.q()[k + 1]));
                }
            }
            assert forall|m: usize|
                m < post.nodes@.len() && !post.in_queue(m) implies (#[trigger] post.node_at(
                m,
            )).is_idle() by {
                if m < pre.nodes@.len() {
                    assert(!pre.in_queue(m));
                    assert(pre.node_at(m).is_idle());
                }
            }
            if post.q().len() > 0 {
                assert(pre.head_ok());
                assert(pre.wf_node(pre.q()[0]));
                assert(post.head_ok());
            }
        }
        n
    }

    /// The atomic tail swap that opens every acquisition: node `n` makes
    /// itself the queue's tail and learns who came before it.
    ///
    /// With no predecessor the lock is won on the spot and the guard comes
    /// back at once — the uncontended fast path enters no wait loop of any
    /// kind.  Otherwise the node remembers its predecessor and must go on
    /// with `acquire_set_locked` and `acquire_publish`.
    pub fn acquire_swap(&mut self, n: usize) -> (g: Option<MCSLockGuard>)
        requires
            old(self).inv(),
            old(self).wf_node(n),
            old(self).phase_of(n) == Phase::Idle,
        ensures
            final(self).inv(),
            final(self).q() == old(self).q().push(n),
            final(self).enqueued@ == old(self).enqueued@.push(n),
            final(self).last == Some(n),
            final(self).data == old(self).data,
            final(self).n_nodes() == old(self).n_nodes(),
            g is Some <==> old(self).last is None,
            old(self).last is None ==> {
                &&& g == Some(MCSLockGuard { node: n })
                &&& final(self).nodes@ == old(self).nodes@.update(
                    n as int,
                    MCSNode { next: None, locked: false, prev: None, phase: Phase::Holder },
                )
                &&& final(self).entered@ == old(self).entered@.push(n)
            },
            old(self).last is Some ==> {
                &&& final(self).nodes@ == old(self).nodes@.update(
                    n as int,
                    MCSNode {
                        next: None,
                        locked: false,
                        prev: old(self).last,
                        phase: Phase::GotPrev,
                    },
                )
                &&& final(self).entered@ == old(self).entered@
            },
    {
        proof {
            old(self).lemma_idle_outside(n);
        }
        let prev = self.last;
        self.last = Some(n);
        self.queue = Ghost(self.queue@.push(n));
        self.enqueued = Ghost(self.enqueued@.push(n));
        match prev {
            None => {
                self.nodes.set(
                    n,
                    MCSNode { next: None, locked: false, prev: None, phase: Phase::Holder },
                );
                self.entered = Ghost(self.entered@.push(n));
                proof {
                    let pre = *old(self);
                    let post = *self;
                    assert(pre.q().len() == 0);
                    assert(post.q()[0] == n);
                    assert(post.q().last() == n);
                    assert forall|m: usize|
                        m < post.nodes@.len() && !post.in_queue(m) implies (
                    #[trigger] post.node_at(m)).is_idle() by {
                        assert(m != n);
                        assert(!pre.in_queue(m));
                        assert(pre.node_at(m).is_idle());
                    }
                    assert forall|k: int| 0 <= k < post.q().len() implies #[trigger] post.link_ok(
                        k,
                    ) by {
                        assert(post.q()[k] == n);
                    }
                    assert(post.enqueued@ =~= post.entered@ + post.q().drop_first());
                }
                Some(MCSLockGuard { node: n })
            },
            Some(p) => {
                self.nodes.set(
                    n,
                    MCSNode { next: None, locked: false, prev: Some(p), phase: Phase::GotPrev },
                );
                proof {
                    let pre = *old(self);
                    let post = *self;
                    let len = pre.q().len() as int;
                    assert(len > 0);
                    assert(p == pre.q()[len - 1]);
                    assert(post.q()[len] == n);
                    assert(post.q().last() == n);
                    assert forall|k: int| 0 <= k < post.q().len() implies post.wf_node(
                        #[trigger] post.q()[k],
                    ) by {
                        if k < len {
                            assert(pre.wf_node(pre.q()[k]));
                        }
                    }
                    assert forall|k1: int, k2: int|
                        0 <= k1 < k2 < post.q().len() implies post.q()[k1] != post.q()[k2] by {
                        if k2 < len {
                            assert(pre.q()[k1] != pre.q()[k2]);
                        } else {
                            assert(!pre.in_queue(post.q()[k1]) ==> pre.q()[k1] != n);
                        }
                    }
                    assert(pre.head_ok());
                    assert(pre.wf_node(pre.q()[0]));
                    assert(post.head_ok());
                    assert forall|k: int| 1 <= k < post.q().len() implies #[trigger] post.mid_ok(
                        k,
                    ) by {
                        if k < len {
                            assert(pre.mid_ok(k));
                            assert(pre.wf_node(pre.q()[k]));
                            assert(pre.wf_node(pre.q()[k - 1]));
                        } else {
                            assert(post.q()[k] == n);
                            assert(post.q()[k - 1] == p);
                        }
                    }
                    assert forall|k: int| 0 <= k < post.q().len() implies #[trigger] post.link_ok(
                        k,
                    ) by {
                        if k < len {
                            assert(pre.link_ok(k));
                            assert(pre.wf_node(pre.q()[k]));
                            if k + 1 < len {
                                assert(pre.wf_node(pre.q()[k + 1]));
                            }
                        } else {
                            assert(post.q()[k] == n);
                        }
                    }
                    assert forall|m: usize|
                        m < post.nodes@.len() && !post.in_queue(m) implies (
                    #[trigger] post.node_at(m)).is_idle() by {
                        assert(post.q()[len] == n);
                        assert(m != n);
                        assert forall|k: int| 0 <= k < len implies pre.q()[k] != m by {
                            assert(post.q()[k] == pre.q()[k]);
                        }
                        assert(!pre.in_queue(m));
                        assert(pre.node_at(m).is_idle());
                    }
                    if pre.node_at(pre.q()[0]).phase == Phase::Holder {
                        assert(post.enqueued@ =~= post.entered@ + post.q().drop_first());
                    } else {
                        assert(post.enqueued@ =~= post.entered@ + post.q());
                    }
                }
                None
            },
        }
    }

    /// The store of the node's own wait flag, made after a tail swap that
    /// found a predecessor and before the node publishes itself.  Setting the
    /// flag first is what keeps the later handoff from being overwritten.
    pub fn acquire_set_locked(&mut self, n: usize)
        requires
            old(self).inv(),
            old(self).wf_node(n),
            old(self).phase_of(n) == Phase::GotPrev,
        ensures
            final(self).inv(),
            final(self).q() == old(self).q(),
            final(self).last == old(self).last,
            final(self).data == old(self).data,
            final(self).n_nodes() == old(self).n_nodes(),
            final(self).enqueued@ == old(self).enqueued@,
            final(self).entered@ == old(self).entered@,
            final(self).nodes@ == old(self).nodes@.update(
                n as int,
                MCSNode {
                    next: old(self).node_at(n).next,
                    locked: true,
                    prev: old(self).node_at(n).prev,
                    phase: Phase::LockedSet,
                },
            ),
            final(self).phase_of(n) == Phase::LockedSet,
    {
        proof {
            let k = old(self).lemma_member_index(n);
            if k == 0 {
                assert(old(self).head_ok());
                assert(false);
            }
            assert(old(self).mid_ok(k));
        }
        let nd = self.nodes[n];
        self.nodes.set(
            n,
            MCSNode { next: nd.next, locked: true, prev: nd.prev, phase: Phase::LockedSet },
        );
        proof {
            let pre = *old(self);
            let post = *self;
            let k = pre.lemma_member_index(n);
            assert(pre.mid_ok(k));
            assert forall|j: int| 0 <= j < post.q().len() implies post.wf_node(
                #[trigger] post.q()[j],
            ) by {
                assert(pre.wf_node(pre.q()[j]));
            }
            assert(post.head_ok()) by {
                assert(pre.head_ok());
                assert(pre.q()[0] != n);
            }
            assert forall|j: int| 1 <= j < post.q().len() implies #[trigger] post.mid_ok(j) by {
                assert(pre.mid_ok(j));
                assert(pre.wf_node(pre.q()[j]));
                assert(pre.wf_node(pre.q()[j - 1]));
                if j != k {
                    assert(pre.q()[j] != n);
                }
            }
            assert forall|j: int| 0 <= j < post.q().len() implies #[trigger] post.link_ok(j) by {
                assert(pre.link_ok(j));
                assert(pre.wf_node(pre.q()[j]));
                if j + 1 < pre.q().len() {
                    assert(pre.wf_node(pre.q()[j + 1]));
                }
            }
            assert forall|m: usize|
                m < post.nodes@.len() && !post.in_queue(m) implies (#[trigger] post.node_at(
                m,
            )).is_idle() by {
                assert(!pre.in_queue(m));
                assert(pre.node_at(m).is_idle());
                assert(m != n);
            }
            assert(pre.q()[0] != n);
        }
    }

    /// The publish store: the node writes itself into its predecessor's
    /// `next`, completing the two-step enqueue.  From here on the node is
    /// reachable along the chain and spins on its own flag.
    pub fn acquire_publish(&mut self, n: usize)
        requires
            old(self).inv(),
            old(self).wf_node(n),
            old(self).phase_of(n) == Phase::LockedSet,
        ensures
            final(self).inv(),
            final(self).q() == old(self).q(),
            final(self).last == old(self).last,
            final(self).data == old(self).data,
            final(self).n_nodes() == old(self).n_nodes(),
            final(self).enqueued@ == old(self).enqueued@,
            final(self).entered@ == old(self).entered@,
            old(self).node_at(n).prev is Some,
            ({
                let p = old(self).node_at(n).prev->0;
                final(self).nodes@ == old(self).nodes@.update(
                    p as int,
                    MCSNode {
                        next: Some(n),
                        locked: old(self).node_at(p).locked,
                        prev: old(self).node_at(p).prev,
                        phase: old(self).node_at(p).phase,
                    },
                ).update(
                    n as int,
                    MCSNode { next: old(self).node_at(n).next, locked: true, prev: Some(p), phase: Phase::Waiting },
                )
            }),
            final(self).phase_of(n) == Phase::Waiting,
    {
        proof {
            let k = old(self).lemma_member_index(n);
            if k == 0 {
                assert(old(self).head_ok());
                assert(false);
            }
            assert(old(self).mid_ok(k));
            assert(old(self).wf_node(old(self).q()[k - 1]));
        }
        let nd = self.nodes[n];
        let p = match nd.prev {
            Some(p) => p,
            None => {
                proof {
                    assert(false);
                }
                0
            },
        };
        let pd = self.nodes[p];
        self.nodes.set(
            p,
            MCSNode { next: Some(n), locked: pd.locked, prev: pd.prev, phase: pd.phase },
        );
        self.nodes.set(
            n,
            MCSNode { next: nd.next, locked: nd.locked, prev: nd.prev, phase: Phase::Waiting },
        );
        proof {
            let pre = *old(self);
            let post = *self;
            let k = pre.lemma_member_index(n);
            assert(pre.mid_ok(k));
            assert(p == pre.q()[k - 1]);
            assert(pre.q()[k] == n);
            assert(p != n);
            assert forall|j: int| 0 <= j < post.q().len() implies post.wf_node(
                #[trigger] post.q()[j],
            ) by {
                assert(pre.wf_node(pre.q()[j]));
            }
            assert(post.head_ok()) by {
                assert(pre.head_ok());
                assert(pre.q()[0] != n);
                if k - 1 != 0 {
                    assert(pre.q()[0] != p);
                }
            }
            assert forall|j: int| 1 <= j < post.q().len() implies #[trigger] post.mid_ok(j) by {
                assert(pre.mid_ok(j));
                assert(pre.wf_node(pre.q()[j]));
                assert(pre.wf_node(pre.q()[j - 1]));
                if j != k {
                    assert(pre.q()[j] != n);
                    if j != k - 1 {
                        assert(pre.q()[j] != p);
                    }
                }
            }
            assert forall|j: int| 0 <= j < post.q().len() implies #[trigger] post.link_ok(j) by {
                assert(pre.link_ok(j));
                assert(pre.wf_node(pre.q()[j]));
                if j + 1 < pre.q().len() {
                    assert(pre.wf_node(pre.q()[j + 1]));
                }
                if j != k - 1 {
                    assert(pre.q()[j] != p);
                    if j != k {
                        assert(pre.q()[j] != n);
                    }
                }
                if j + 1 < pre.q().len() && j + 1 != k - 1 && j + 1 != k {
                    assert(pre.q()[j + 1] != p);
                    assert(pre.q()[j + 1] != n);
                }
            }
            assert forall|m: usize|
                m < post.nodes@.len() && !post.in_queue(m) implies (#[trigger] post.node_at(
                m,
            )).is_idle() by {
                assert(!pre.in_queue(m));
                assert(pre.node_at(m).is_idle());
                assert(m != n);
                assert(m != p);
            }
            assert(pre.q()[0] != n);
        }
    }

    /// One load of the node's own wait flag: one turn of the acquire spin
    /// loop.  The flag is clear exactly when every earlier node has left the
    /// queue and the predecessor's handoff has reached this node; the load
    /// that sees it clear completes the acquisition and yields the guard.
    pub fn acquire_spin(&mut self, n: usize) -> (g: Option<MCSLockGuard>)
        requires
            old(self).inv(),
            old(self).wf_node(n),
            old(self).phase_of(n) == Phase::Waiting,
        ensures
            final(self).inv(),
            g is Some <==> !old(self).node_at(n).locked,
            old(self).node_at(n).locked ==> g is None && *final(self) == *old(self),
            !old(self).node_at(n).locked ==> {
                &&& g == Some(MCSLockGuard { node: n })
                &&& final(self).is_holder(n)
                &&& old(self).q().len() > 0 && old(self).q()[0] == n
                &&& final(self).q() == old(self).q()
                &&& final(self).last == old(self).last
                &&& final(self).data == old(self).data
                &&& final(self).n_nodes() == old(self).n_nodes()
                &&& final(self).enqueued@ == old(self).enqueued@
                &&& final(self).entered@ == old(self).entered@.push(n)
                &&& final(self).nodes@ == old(self).nodes@.update(
                    n as int,
                    MCSNode {
                        next: old(self).node_at(n).next,
                        locked: false,
                        prev: old(self).node_at(n).prev,
                        phase: Phase::Holder,
                    },
                )
            },
    {
        let nd = self.nodes[n];
        if nd.locked {
            None
        } else {
            proof {
                let k = old(self).lemma_member_index(n);
                if k >= 1 {
                    assert(old(self).mid_ok(k));
                    assert(false);
                }
            }
            self.nodes.set(
                n,
                MCSNode { next: nd.next, locked: false, prev: nd.prev, phase: Phase::Holder },
            );
            self.entered = Ghost(self.entered@.push(n));
            proof {
                let pre = *old(self);
                let post = *self;
                assert(pre.q()[0] == n);
                assert forall|j: int| 0 <= j < post.q().len() implies post.wf_node(
                    #[trigger] post.q()[j],
                ) by {
                    assert(pre.wf_node(pre.q()[j]));
                }
                assert forall|j: int| 1 <= j < post.q().len() implies #[trigger] post.mid_ok(
                    j,
                ) by {
                    assert(pre.mid_ok(j));
                    assert(pre.wf_node(pre.q()[j]));
                    assert(pre.wf_node(pre.q()[j - 1]));
                    assert(pre.q()[j] != n);
                }
                assert forall|j: int| 0 <= j < post.q().len() implies #[trigger] post.link_ok(
                    j,
                ) by {
                    assert(pre.link_ok(j));
                    assert(pre.wf_node(pre.q()[j]));
                    if j + 1 < pre.q().len() {
                        assert(pre.wf_node(pre.q()[j + 1]));
                        assert(pre.q()[j + 1] != n);
                    }
                }
                assert forall|m: usize|
                    m < post.nodes@.len() && !post.in_queue(m) implies (#[trigger] post.node_at(
                    m,
                )).is_idle() by {
                    assert(!pre.in_queue(m));
                    assert(pre.node_at(m).is_idle());
                    assert(m != n);
                }
                assert(post.enqueued@ =~= post.entered@ + post.q().drop_first());
            }
            Some(MCSLockGuard { node: n })
        }
    }

    /// Nothing of the protocol state changed between two lock values: the
    /// invariant carries over.  (The protected value is allowed to differ.)
    pub proof fn lemma_inv_same_protocol_state(pre: Self, post: Self)
        requires
            pre.inv(),
            post.nodes@ == pre.nodes@,
            post.last == pre.last,
            post.queue@ == pre.queue@,
            post.enqueued@ == pre.enqueued@,
            post.entered@ == pre.entered@,
        ensures
            post.inv(),
    {
        assert forall|j: int| 0 <= j < post.q().len() implies post.wf_node(
            #[trigger] post.q()[j],
        ) by {
            assert(pre.wf_node(pre.q()[j]));
        }
        if post.q().len() > 0 {
            assert(pre.head_ok());
            assert(pre.wf_node(pre.q()[0]));
            assert(post.head_ok());
        }
        assert forall|j: int| 1 <= j < post.q().len() implies #[trigger] post.mid_ok(j) by {
            assert(pre.mid_ok(j));
            assert(pre.wf_node(pre.q()[j]));
            assert(pre.wf_node(pre.q()[j - 1]));
        }
        assert forall|j: int| 0 <= j < post.q().len() implies #[trigger] post.link_ok(j) by {
            assert(pre.link_ok(j));
            assert(pre.wf_node(pre.q()[j]));
            if j + 1 < pre.q().len() {
                assert(pre.wf_node(pre.q()[j + 1]));
            }
        }
        assert forall|m: usize|
            m < post.nodes@.len() && !post.in_queue(m) implies (#[trigger] post.node_at(
            m,
        )).is_idle() by {
            assert(!pre.in_queue(m));
            assert(pre.node_at(m).is_idle());
        }
    }

    /// Read the protected value.  Only the current owner's guard grants
    /// access, and the read sees exactly the value the previous owner left:
    /// every critical-section write is wholly visible to the next holder.
    pub fn cs_read(&self, g: &MCSLockGuard) -> (r: &T)
        requires
            self.holds(*g),
        ensures
            *r == self.data,
    {
        &self.data
    }

    /// Overwrite the protected value.  Only the current owner's guard grants
    /// access; nothing of the protocol state moves.
    pub fn cs_write(&mut self, g: &MCSLockGuard, v: T)
        requires
            old(self).inv(),
            old(self).holds(*g),
        ensures
            final(self).inv(),
            final(self).holds(*g),
            final(self).data == v,
            final(self).nodes@ == old(self).nodes@,
            final(self).last == old(self).last,
            final(self).q() == old(self).q(),
            final(self).n_nodes() == old(self).n_nodes(),
            final(self).enqueued@ == old(self).enqueued@,
            final(self).entered@ == old(self).entered@,
    {
        self.data = v;
        proof {
            Self::lemma_inv_same_protocol_state(*old(self), *self);
        }
    }

    /// One load of the owner's own `next` field: one turn of the release
    /// wait loop.  `None` means no successor has published itself yet.
    pub fn release_poll_next(&self, g: &MCSLockGuard) -> (r: Option<usize>)
        requires
            self.holds(*g),
        ensures
            r == self.node_at(g.node).next,
    {
        self.nodes[g.node].next
    }

    /// The release-side compare-and-swap of the tail: succeeds, emptying the
    /// queue, exactly when the owner is still the tail — that is, when no
    /// other node has swapped itself in behind it.  On failure nothing moves,
    /// and a successor is already in the queue: its publish store is the one
    /// event the release then waits for.
    pub fn release_try_clear(&mut self, g: &MCSLockGuard) -> (r: bool)
        requires
            old(self).inv(),
            old(self).holds(*g),
        ensures
            final(self).inv(),
            r <==> old(self).q().len() == 1,
            r <==> old(self).last == Some(g.node),
            r ==> {
                &&& final(self).q() == Seq::<usize>::empty()
                &&& final(self).last is None
                &&& final(self).data == old(self).data
                &&& final(self).n_nodes() == old(self).n_nodes()
                &&& final(self).enqueued@ == old(self).enqueued@
                &&& final(self).entered@ == old(self).entered@
                &&& final(self).nodes@ == old(self).nodes@.update(
                    g.node as int,
                    MCSNode { next: None, locked: false, prev: None, phase: Phase::Idle },
                )
            },
            !r ==> *final(self) == *old(self) && old(self).q().len() >= 2 && old(self).q()[0]
                == g.node,
    {
        let n = g.node;
        proof {
            old(self).lemma_holder_head(n);
        }
        match self.last {
            Some(t) => {
                if t == n {
                    proof {
                        let pre = *old(self);
                        assert(t == pre.q().last());
                        if pre.q().len() >= 2 {
                            assert(pre.q()[0] != pre.q()[pre.q().len() - 1]);
                            assert(false);
                        }
                    }
                    self.last = None;
                    self.nodes.set(
                        n,
                        MCSNode { next: None, locked: false, prev: None, phase: Phase::Idle },
                    );
                    self.queue = Ghost(Seq::empty());
                    proof {
                        let pre = *old(self);
                        let post = *self;
                        assert(pre.link_ok(0));
                        assert forall|m: usize|
                            m < post.nodes@.len() && !post.in_queue(m) implies (
                        #[trigger] post.node_at(m)).is_idle() by {
                            if m != n {
                                assert forall|k: int| 0 <= k < pre.q().len() implies pre.q()[k]
                                    != m by {
                                    assert(pre.q()[k] == n);
                                }
                                assert(!pre.in_queue(m));
                                assert(pre.node_at(m).is_idle());
                            }
                        }
                        assert(post.enqueued@ =~= post.entered@ + post.q());
                    }
                    true
                } else {
                    proof {
                        let pre = *old(self);
                        if pre.q().len() == 1 {
                            assert(pre.q().last() == pre.q()[0]);
                            assert(false);
                        }
                    }
                    false
                }
            },
            None => {
                proof {
                    assert(false);
                }
                false
            },
        }
    }

    /// The handoff: the owner clears its successor's wait flag, transferring
    /// the lock to the node that enqueued immediately after it, and retires
    /// its own node.  Requires the successor's publish store to have landed
    /// (`next` is set) — the release wait loop polls until it has.
    pub fn release_handoff(&mut self, g: &MCSLockGuard)
        requires
            old(self).inv(),
            old(self).holds(*g),
            old(self).node_at(g.node).next is Some,
        ensures
            final(self).inv(),
            old(self).q().len() >= 2,
            old(self).node_at(g.node).next == Some(old(self).q()[1]),
            final(self).q() == old(self).q().drop_first(),
            final(self).last == old(self).last,
            final(self).data == old(self).data,
            final(self).n_nodes() == old(self).n_nodes(),
            final(self).enqueued@ == old(self).enqueued@,
            final(self).entered@ == old(self).entered@,
            ({
                let s = old(self).q()[1];
                &&& final(self).nodes@ == old(self).nodes@.update(
                    s as int,
                    MCSNode {
                        next: old(self).node_at(s).next,
                        locked: false,
                        prev: old(self).node_at(s).prev,
                        phase: Phase::Waiting,
                    },
                ).update(
                    g.node as int,
                    MCSNode { next: None, locked: false, prev: None, phase: Phase::Idle },
                )
                &&& final(self).phase_of(s) == Phase::Waiting
                &&& !final(self).node_at(s).locked
            }),
    {
        let n = g.node;
        proof {
            old(self).lemma_holder_head(n);
            assert(old(self).link_ok(0));
            assert(old(self).wf_node(old(self).q()[1]));
        }
        let s = match self.nodes[n].next {
            Some(s) => s,
            None => {
                proof {
                    assert(false);
                }
                0
            },
        };
        let sd = self.nodes[s];
        self.nodes.set(
            s,
            MCSNode { next: sd.next, locked: false, prev: sd.prev, phase: sd.phase },
        );
        self.nodes.set(
            n,
            MCSNode { next: None, locked: false, prev: None, phase: Phase::Idle },
        );
        self.queue = Ghost(self.queue@.drop_first());
        proof {
            let pre = *old(self);
            let post = *self;
            assert(s == pre.q()[1]);
            assert(n == pre.q()[0]);
            assert(s != n);
            assert(pre.mid_ok(1));
            assert forall|j: int| 0 <= j < post.q().len() implies post.q()[j] == pre.q()[j
                + 1] by {}
            assert forall|j: int| 0 <= j < post.q().len() implies post.wf_node(
                #[trigger] post.q()[j],
            ) by {
                assert(pre.wf_node(pre.q()[j + 1]));
            }
            assert(post.q().last() == pre.q().last());
            assert(post.head_ok());
            assert forall|j: int| 1 <= j < post.q().len() implies #[trigger] post.mid_ok(j) by {
                assert(pre.mid_ok(j + 1));
                assert(pre.wf_node(pre.q()[j + 1]));
                assert(pre.wf_node(pre.q()[j]));
                assert(pre.q()[j + 1] != s);
                assert(pre.q()[j + 1] != n);
            }
            assert forall|j: int| 0 <= j < post.q().len() implies #[trigger] post.link_ok(j) by {
                assert(pre.link_ok(j + 1));
                assert(pre.wf_node(pre.q()[j + 1]));
                if j + 2 < pre.q().len() {
                    assert(pre.wf_node(pre.q()[j + 2]));
                    assert(pre.q()[j + 2] != s);
                    assert(pre.q()[j + 2] != n);
                }
            }
            assert forall|m: usize|
                m < post.nodes@.len() && !post.in_queue(m) implies (#[trigger] post.node_at(
                m,
            )).is_idle() by {
                if m != n {
                    assert forall|k: int| 0 <= k < pre.q().len() implies pre.q()[k] != m by {
                        if k >= 1 {
                            assert(post.q()[k - 1] == pre.q()[k]);
                        }
                    }
                    assert(!pre.in_queue(m));
                    assert(pre.node_at(m).is_idle());
                    assert(m != s);
                }
            }
            assert(post.enqueued@ =~= post.entered@ + post.q());
        }
    }

    /// The whole enqueue side of an acquisition, as one thread runs it: the
    /// tail swap, then — when a predecessor exists — the flag store and the
    /// publish store back to back.  Returns the guard when the swap won the
    /// lock outright; otherwise the node is left spinning (`Waiting`) and
    /// the caller polls `acquire_spin` until the predecessor's handoff
    /// arrives.
    pub fn lock(&mut self, n: usize) -> (g: Option<MCSLockGuard>)
        requires
            old(self).inv(),
            old(self).wf_node(n),
            old(self).phase_of(n) == Phase::Idle,
        ensures
            final(self).inv(),
            final(self).q() == old(self).q().push(n),
            final(self).enqueued@ == old(self).enqueued@.push(n),
            final(self).last == Some(n),
            final(self).data == old(self).data,
            final(self).n_nodes() == old(self).n_nodes(),
            g is Some <==> old(self).last is None,
            old(self).last is None ==> {
                &&& g == Some(MCSLockGuard { node: n })
                &&& final(self).is_holder(n)
                &&& final(self).entered@ == old(self).entered@.push(n)
                &&& final(self).nodes@ == old(self).nodes@.update(
                    n as int,
                    MCSNode { next: None, locked: false, prev: None, phase: Phase::Holder },
                )
            },
            old(self).last is Some ==> {
                &&& final(self).phase_of(n) == Phase::Waiting
                &&& final(self).node_at(n).locked
                &&& final(self).entered@ == old(self).entered@
                &&& ({
                    let p = old(self).last->0;
                    final(self).nodes@ == old(self).nodes@.update(
                        p as int,
                        MCSNode {
                            next: Some(n),
                            locked: old(self).node_at(p).locked,
                            prev: old(self).node_at(p).prev,
                            phase: old(self).node_at(p).phase,
                        },
                    ).update(
                        n as int,
                        MCSNode { next: None, locked: true, prev: Some(p), phase: Phase::Waiting },
                    )
                })
            },
    {
        match self.acquire_swap(n) {
            Some(g) => Some(g),
            None => {
                self.acquire_set_locked(n);
                self.acquire_publish(n);
                proof {
                    let pre = *old(self);
                    let p = pre.last->0;
                    assert(pre.queue_wf());
                    assert(pre.wf_node(pre.q()[pre.q().len() - 1]));
                    assert(p == pre.q().last());
                    assert(self.nodes@ =~= pre.nodes@.update(
                        p as int,
                        MCSNode {
                            next: Some(n),
                            locked: pre.node_at(p).locked,
                            prev: pre.node_at(p).prev,
                            phase: pre.node_at(p).phase,
                        },
                    ).update(
                        n as int,
                        MCSNode { next: None, locked: true, prev: Some(p), phase: Phase::Waiting },
                    ));
                }
                None
            },
        }
    }

    /// The whole release, as one thread runs it: poll the own `next`; if no
    /// successor has published itself, try to clear the tail; a failed
    /// clear means a successor has swapped in behind, and its publish store
    /// is the one event still awaited before the handoff.  In this
    /// sequential model that wait cannot be a loop, so the caller may not
    /// release while a successor sits between its swap and its publish; the
    /// individual step functions cover that window.
    pub fn unlock(&mut self, g: &MCSLockGuard)
        requires
            old(self).inv(),
            old(self).holds(*g),
            old(self).q().len() >= 2 ==> old(self).phase_of(old(self).q()[1]) == Phase::Waiting,
        ensures
            final(self).inv(),
            final(self).q() == old(self).q().drop_first(),
            final(self).data == old(self).data,
            final(self).n_nodes() == old(self).n_nodes(),
            final(self).enqueued@ == old(self).enqueued@,
            final(self).entered@ == old(self).entered@,
            final(self).phase_of(g.node) == Phase::Idle,
            old(self).q().len() == 1 ==> final(self).last is None && final(self).nodes@ == old(
                self,
            ).nodes@.update(
                g.node as int,
                MCSNode { next: None, locked: false, prev: None, phase: Phase::Idle },
            ),
            old(self).q().len() >= 2 ==> {
                &&& final(self).last == old(self).last
                &&& final(self).phase_of(old(self).q()[1]) == Phase::Waiting
                &&& !final(self).node_at(old(self).q()[1]).locked
                &&& ({
                    let s = old(self).q()[1];
                    final(self).nodes@ == old(self).nodes@.update(
                        s as int,
                        MCSNode {
                            next: old(self).node_at(s).next,
                            locked: false,
                            prev: old(self).node_at(s).prev,
                            phase: Phase::Waiting,
                        },
                    ).update(
                        g.node as int,
                        MCSNode { next: None, locked: false, prev: None, phase: Phase::Idle },
                    )
                })
            },
    {
        proof {
            old(self).lemma_holder_head(g.node);
        }
        match self.release_poll_next(g) {
            Some(_) => {
                self.release_handoff(g);
            },
            None => {
                let cleared = self.release_try_clear(g);
                proof {
                    let pre = *old(self);
                    if !cleared {
                        assert(pre.link_ok(0));
                        assert(false);
                    }
                    assert(self.q() =~= pre.q().drop_first());
                }
            },
        }
    }
}

} // verus!
