use timer_wheel::timewheel::TimeWheel;

#[test]
fn empty_wheel_ticks_nothing() {
    let mut wheel = TimeWheel::new(4);
    for _ in 0..10 {
        assert!(wheel.tick().is_empty());
    }
}

#[test]
fn delay_two_fires_exactly_at_tick_two() {
    // delay 2 on a wheel of size 4: slot (0 + 2) % 4 = 2 with 0 rounds
    let mut wheel = TimeWheel::new(4);
    wheel.add(2, 7);
    assert!(wheel.tick().is_empty());
    assert_eq!(wheel.tick(), vec![7]);
    for _ in 0..12 {
        assert!(wheel.tick().is_empty());
    }
}

#[test]
fn delay_six_fires_on_second_pass_of_its_slot() {
    // delay 6 on a wheel of size 4: slot (0 + 6) % 4 = 2 with 1 round, so
    // the entry survives the first scan of slot 2 (tick 2) and fires on the
    // second (tick 6)
    let mut wheel = TimeWheel::new(4);
    wheel.add(6, 42);
    for tick in 1..=5 {
        assert!(wheel.tick().is_empty(), "fired too early, at tick {}", tick);
    }
    assert_eq!(wheel.tick(), vec![42]);
    assert!(wheel.tick().is_empty());
}

#[test]
fn delay_on_a_whole_number_of_revolutions_waits_one_extra_revolution() {
    // delay 4 on a wheel of size 4 lands back on the cursor's slot with one
    // round remaining: the first scan comes after a full revolution and only
    // decrements the round, so the entry fires at tick 8
    let mut wheel = TimeWheel::new(4);
    wheel.add(4, 9);
    for tick in 1..=7 {
        assert!(wheel.tick().is_empty(), "fired too early, at tick {}", tick);
    }
    assert_eq!(wheel.tick(), vec![9]);
}

#[test]
fn same_tick_timers_both_fire_in_insertion_order_or_not() {
    let mut wheel = TimeWheel::new(4);
    wheel.add(3, 1);
    wheel.add(3, 2);
    assert!(wheel.tick().is_empty());
    assert!(wheel.tick().is_empty());
    let fired = wheel.tick();
    assert_eq!(fired.len(), 2);
    assert!(fired.contains(&1));
    assert!(fired.contains(&2));
}

#[test]
fn same_tick_timers_both_fire_with_insertion_order_reversed() {
    let mut wheel = TimeWheel::new(4);
    wheel.add(3, 2);
    wheel.add(3, 1);
    assert!(wheel.tick().is_empty());
    assert!(wheel.tick().is_empty());
    let fired = wheel.tick();
    assert_eq!(fired.len(), 2);
    assert!(fired.contains(&1));
    assert!(fired.contains(&2));
}

#[test]
fn different_rounds_in_one_slot_fire_on_different_passes() {
    // delays 1 and 5 share slot 1 on a wheel of size 4 but differ by one
    // round
    let mut wheel = TimeWheel::new(4);
    wheel.add(1, 10);
    wheel.add(5, 50);
    assert_eq!(wheel.tick(), vec![10]);
    for _ in 2..=4 {
        assert!(wheel.tick().is_empty());
    }
    assert_eq!(wheel.tick(), vec![50]);
}

#[test]
fn wheel_of_one_slot_counts_whole_revolutions() {
    // with a single slot every delay is a whole number of revolutions, so
    // each entry waits one extra scan: delay d fires at tick d + 1
    let mut wheel = TimeWheel::new(1);
    wheel.add(1, 1);
    wheel.add(3, 3);
    assert!(wheel.tick().is_empty());
    assert_eq!(wheel.tick(), vec![1]);
    assert!(wheel.tick().is_empty());
    assert_eq!(wheel.tick(), vec![3]);
}

#[test]
fn large_delay_counts_rounds() {
    // delay 10 on a wheel of size 3: slot (0 + 10) % 3 = 1, rounds 10 / 3 = 3
    let mut wheel = TimeWheel::new(3);
    wheel.add(10, 5);
    for tick in 1..=9 {
        assert!(wheel.tick().is_empty(), "fired too early, at tick {}", tick);
    }
    assert_eq!(wheel.tick(), vec![5]);
}

#[test]
fn huge_delay_is_accepted_and_waits_in_rounds() {
    // the slot computation must not overflow even for the largest delay
    let mut wheel = TimeWheel::new(4);
    wheel.add(u64::MAX, 1);
    for _ in 0..16 {
        assert!(wheel.tick().is_empty());
    }
}
