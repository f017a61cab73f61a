use hanoi::counter::Counter;

#[test]
fn rollover_follows_lowest_set_bit() {
    // After t increments from zero, last_rollover is the position of
    // the lowest set bit of t: 1 -> 0, 2 -> 1, 3 -> 0, 4 -> 2, ...
    let mut c = Counter::new(4);
    let expected = [0, 1, 0, 2, 0, 1, 0, 3, 0, 1, 0, 2, 0, 1, 0];
    for (t, want) in expected.iter().enumerate() {
        c.increment();
        assert_eq!(c.last_rollover, *want, "after {} increments", t + 1);
    }
}

#[test]
fn counter_for_zero_discs_still_counts() {
    let mut c = Counter::new(0);
    assert_eq!(c.last_rollover, 0);
    c.increment();
    assert_eq!(c.last_rollover, 0);
    c.increment();
    assert_eq!(c.last_rollover, 1);
}

#[test]
fn counter_width_covers_the_request() {
    // 64 discs need exactly one 64-bit word; 65 need two.
    let mut c64 = Counter::new(64);
    let mut c65 = Counter::new(65);
    for _ in 0..100 {
        c64.increment();
        c65.increment();
    }
    assert_eq!(c64.last_rollover, 2);
    assert_eq!(c65.last_rollover, 2);
}
