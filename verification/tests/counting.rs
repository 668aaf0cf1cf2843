use mcs_lock::counter::counter_demo;

#[test]
fn no_lost_updates_across_worker_counts() {
    // N workers, M cycles each: the counter ends at exactly N * M.
    assert_eq!(counter_demo(1, 10_000), 10_000);
    assert_eq!(counter_demo(2, 10_000), 20_000);
    assert_eq!(counter_demo(4, 10_000), 40_000);
    assert_eq!(counter_demo(8, 10_000), 80_000);
    assert_eq!(counter_demo(16, 10_000), 160_000);
}

#[test]
fn four_workers_one_million_each() {
    assert_eq!(counter_demo(4, 1_000_000), 4_000_000);
}

#[test]
fn repeated_runs_are_deterministic() {
    for _ in 0..100 {
        assert_eq!(counter_demo(4, 2_000), 8_000);
    }
}

#[test]
fn zero_rounds_leave_the_counter_untouched() {
    assert_eq!(counter_demo(4, 0), 0);
    assert_eq!(counter_demo(1, 0), 0);
}

#[test]
fn single_worker_many_cycles() {
    assert_eq!(counter_demo(1, 1_000_000), 1_000_000);
}
