//! A verified client of the lock: any number of workers each run any number
//! of acquire/increment/release cycles on a shared `u64` counter under full
//! contention, and not one update is lost.

use vstd::prelude::*;
use crate::lock::MCSLock;
use crate::lock::MCSLockGuard;
use crate::lock::Phase;

verus! {

/// Run `threads` workers for `rounds` rounds over one shared counter.
///
/// Each round, every worker in turn enqueues on the lock — the first wins
/// the empty queue, all the others contend and wait — and the lock then
/// passes from worker to worker in swap order, each incrementing the
/// counter once while it holds the guard.  The result is exactly
/// `threads * rounds`, whatever the two factors: under mutual exclusion and
/// first-come-first-served handoff, no increment overwrites another.
pub fn counter_demo(threads: usize, rounds: usize) -> (count: u64)
    requires
        1 <= threads,
        threads * rounds <= u64::MAX,
    ensures
        count == threads * rounds,
{
    let mut lock = MCSLock::<u64>::new(0);
    let mut t: usize = 0;
    while t < threads
        invariant
            lock.inv(),
            t <= threads,
            lock.n_nodes() == t,
            lock.q().len() == 0,
            lock.last is None,
            lock.data == 0,
            lock.entered@.len() == 0,
            lock.enqueued@.len() == 0,
        decreases threads - t,
    {
        let _ = lock.get_locker();
        t = t + 1;
    }
    let mut r: usize = 0;
    while r < rounds
        invariant
            lock.inv(),
            1 <= threads,
            r <= rounds,
            threads * rounds <= u64::MAX,
            lock.n_nodes() == threads,
            lock.q().len() == 0,
            lock.last is None,
            lock.data == r * threads,
        decreases rounds - r,
    {
        proof {
            assert(!lock.in_queue(0));
            assert(lock.node_at(0).is_idle());
        }
        let g0 = match lock.lock(0) {
            Some(g) => g,
            None => {
                proof {
                    assert(false);
                }
                MCSLockGuard { node: 0 }
            },
        };
        proof {
            assert(lock.q() =~= Seq::new(1, |i: int| i as usize));
        }
        let mut w: usize = 1;
        while w < threads
            invariant
                lock.inv(),
                1 <= w <= threads,
                lock.n_nodes() == threads,
                lock.q() == Seq::new(w as nat, |i: int| i as usize),
                lock.is_holder(0),
                g0.node == 0,
                forall|m: usize| 1 <= m < w ==> lock.phase_of(m) == Phase::Waiting,
                lock.data == r * threads,
            decreases threads - w,
        {
            proof {
                assert forall|k: int| 0 <= k < lock.q().len() implies lock.q()[k] != w by {
                    assert(lock.q()[k] == k);
                }
                assert(!lock.in_queue(w));
                assert(lock.node_at(w).is_idle());
                assert(lock.q().len() > 0);
            }
            let ghost pre = lock;
            let got = lock.lock(w);
            proof {
                assert(got is None);
                assert(lock.q() =~= Seq::new((w + 1) as nat, |i: int| i as usize));
                let p = pre.last->0;
                assert(p == pre.q().last());
                assert(p == w - 1);
                assert(lock.phase_of(0) == Phase::Holder);
                assert forall|m: usize| 1 <= m < w + 1 implies lock.phase_of(m)
                    == Phase::Waiting by {
                    if m < w {
                        assert(pre.phase_of(m) == Phase::Waiting);
                    }
                }
            }
            w = w + 1;
        }
        let mut g = g0;
        let mut h: usize = 0;
        while h < threads
            invariant
                lock.inv(),
                h <= threads,
                1 <= threads,
                lock.n_nodes() == threads,
                threads * rounds <= u64::MAX,
                r < rounds,
                lock.data == r * threads + h,
                h < threads ==> {
                    &&& lock.q() == Seq::new((threads - h) as nat, |i: int| (h + i) as usize)
                    &&& g.node == h
                    &&& lock.is_holder(h)
                    &&& forall|m: usize| h < m < threads ==> lock.phase_of(m) == Phase::Waiting
                },
                h == threads ==> lock.q().len() == 0 && lock.last is None,
            decreases threads - h,
        {
            let ghost top = lock;
            let c = *lock.cs_read(&g);
            proof {
                assert(r * threads + h + 1 <= rounds * threads) by (nonlinear_arith)
                    requires
                        0 <= r < rounds,
                        0 <= h < threads,
                {}
                assert(rounds * threads == threads * rounds);
            }
            lock.cs_write(&g, c + 1);
            let ghost pre = lock;
            if h + 1 < threads {
                proof {
                    assert(lock.q()[0] == h);
                    assert(lock.q()[1] == h + 1);
                    assert(top.phase_of((h + 1) as usize) == Phase::Waiting);
                    assert(lock.nodes@ == top.nodes@);
                    assert(lock.phase_of((h + 1) as usize) == Phase::Waiting);
                    assert(lock.link_ok(0));
                }
                lock.release_handoff(&g);
                let ghost mid = lock;
                let gn = match lock.acquire_spin(h + 1) {
                    Some(gn) => gn,
                    None => {
                        proof {
                            assert(false);
                        }
                        g
                    },
                };
                g = gn;
                proof {
                    assert(lock.q() =~= Seq::new(
                        (threads - (h + 1)) as nat,
                        |i: int| (h + 1 + i) as usize,
                    ));
                    assert forall|m: usize| h + 1 < m < threads implies lock.phase_of(m)
                        == Phase::Waiting by {
                        assert(m != h && m != h + 1);
                        assert(top.phase_of(m) == Phase::Waiting);
                        assert(pre.nodes@ == top.nodes@);
                        assert(pre.phase_of(m) == Phase::Waiting);
                        assert(mid.phase_of(m) == Phase::Waiting);
                    }
                }
            } else {
                let cleared = lock.release_try_clear(&g);
                proof {
                    assert(cleared);
                }
            }
            h = h + 1;
        }
        r = r + 1;
        proof {
            assert((r - 1) * threads + threads == r * threads) by (nonlinear_arith) {}
        }
    }
    proof {
        assert(!lock.in_queue(0));
        assert(lock.node_at(0).is_idle());
        assert(rounds * threads == threads * rounds) by (nonlinear_arith) {}
    }
    let gf = match lock.lock(0) {
        Some(g) => g,
        None => {
            proof {
                assert(false);
            }
            MCSLockGuard { node: 0 }
        },
    };
    let count = *lock.cs_read(&gf);
    let _ = lock.release_try_clear(&gf);
    count
}

} // verus!
