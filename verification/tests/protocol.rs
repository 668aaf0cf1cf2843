use mcs_lock::lock::MCSLock;

#[test]
fn fast_path_no_contention() {
    // An uncontended acquisition wins at the tail swap itself: no spin step
    // is ever needed.
    let mut lock = MCSLock::new(0u64);
    let n = lock.get_locker();
    assert_eq!(n, 0);
    let g = lock.acquire_swap(n);
    assert!(g.is_some());
    let g = g.unwrap();
    assert_eq!(*lock.cs_read(&g), 0);
    lock.cs_write(&g, 7);
    assert_eq!(*lock.cs_read(&g), 7);
    // no successor ever appeared, so the tail clear succeeds
    assert!(lock.release_try_clear(&g));
    // the node is reusable and the fast path repeats
    let g2 = lock.lock(n);
    assert!(g2.is_some());
    assert!(lock.release_try_clear(&g2.unwrap()));
}

#[test]
fn nodes_are_issued_in_order() {
    let mut lock = MCSLock::new(0u64);
    assert_eq!(lock.get_locker(), 0);
    assert_eq!(lock.get_locker(), 1);
    assert_eq!(lock.get_locker(), 2);
}

#[test]
fn fifo_entry_order_matches_enqueue_order() {
    // Three contenders enqueue a, b, c; critical-section entries happen in
    // exactly that order.
    let mut lock = MCSLock::new(Vec::<usize>::new());
    let a = lock.get_locker();
    let b = lock.get_locker();
    let c = lock.get_locker();
    let ga = lock.lock(a).unwrap();
    assert!(lock.lock(b).is_none());
    assert!(lock.lock(c).is_none());
    let mut v = lock.cs_read(&ga).clone();
    v.push(a);
    lock.cs_write(&ga, v);
    lock.release_handoff(&ga);
    let gb = lock.acquire_spin(b).unwrap();
    let mut v = lock.cs_read(&gb).clone();
    v.push(b);
    lock.cs_write(&gb, v);
    lock.release_handoff(&gb);
    let gc = lock.acquire_spin(c).unwrap();
    let mut v = lock.cs_read(&gc).clone();
    v.push(c);
    lock.cs_write(&gc, v);
    assert!(lock.release_try_clear(&gc));
    let gf = lock.lock(a).unwrap();
    assert_eq!(lock.cs_read(&gf).clone(), vec![a, b, c]);
    assert!(lock.release_try_clear(&gf));
}

#[test]
fn two_step_race_never_misses_the_wakeup() {
    // The successor's publish is delayed for as long as possible after its
    // tail swap; the predecessor's release must still find it.
    let mut lock = MCSLock::new(0u64);
    let a = lock.get_locker();
    let b = lock.get_locker();
    let ga = lock.acquire_swap(a).unwrap();
    // b swaps itself in but has not published yet
    assert!(lock.acquire_swap(b).is_none());
    // a's release: no successor visible in `next`...
    assert_eq!(lock.release_poll_next(&ga), None);
    // ...and the tail clear fails, because b already swapped itself in
    assert!(!lock.release_try_clear(&ga));
    // a keeps polling while b finishes its two-step enqueue
    assert_eq!(lock.release_poll_next(&ga), None);
    lock.acquire_set_locked(b);
    assert_eq!(lock.release_poll_next(&ga), None);
    lock.acquire_publish(b);
    // b spins while its flag is still set
    assert!(lock.acquire_spin(b).is_none());
    // the very next poll observes b: the race window closes
    assert_eq!(lock.release_poll_next(&ga), Some(b));
    lock.release_handoff(&ga);
    let gb = lock.acquire_spin(b).expect("handoff must unblock the successor");
    lock.cs_write(&gb, 1);
    assert_eq!(*lock.cs_read(&gb), 1);
    assert!(lock.release_try_clear(&gb));
}

#[test]
fn writes_are_wholly_visible_to_next_holder() {
    // A holder writes a correlated pair; the very next holder reads both
    // halves consistently.
    let mut lock = MCSLock::new((0u64, 0u64));
    let a = lock.get_locker();
    let b = lock.get_locker();
    let ga = lock.lock(a).unwrap();
    assert!(lock.lock(b).is_none());
    lock.cs_write(&ga, (21, 42));
    lock.release_handoff(&ga);
    let gb = lock.acquire_spin(b).unwrap();
    let pair = *lock.cs_read(&gb);
    assert_eq!(pair, (21, 42));
    assert_eq!(pair.1, 2 * pair.0);
    assert!(lock.release_try_clear(&gb));
}

#[test]
fn unlock_clears_or_hands_off() {
    let mut lock = MCSLock::new(0u64);
    let a = lock.get_locker();
    let b = lock.get_locker();
    // contended: unlock performs the handoff to the published successor
    let ga = lock.lock(a).unwrap();
    assert!(lock.lock(b).is_none());
    lock.cs_write(&ga, 1);
    lock.unlock(&ga);
    let gb = lock.acquire_spin(b).expect("successor takes over");
    assert_eq!(*lock.cs_read(&gb), 1);
    // uncontended: unlock empties the queue
    lock.unlock(&gb);
    let gf = lock.lock(a).unwrap();
    assert_eq!(*lock.cs_read(&gf), 1);
    lock.unlock(&gf);
}
