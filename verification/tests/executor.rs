use timer_wheel::hashed::driver_should_continue;
use timer_wheel::hashed::TimerExecutor;
use timer_wheel::hashed::TimerExecutorImpl;
use timer_wheel::hashed::TimerPoll;

#[test]
fn ids_are_allocated_from_one_upwards() {
    let mut exec: TimerExecutorImpl<&'static str> = TimerExecutorImpl::new(8);
    assert_eq!(exec.create_timer(1), 1);
    assert_eq!(exec.create_timer(5), 2);
    assert_eq!(exec.create_timer(2), 3);
}

#[test]
fn poll_before_any_tick_is_pending() {
    let mut exec: TimerExecutorImpl<&'static str> = TimerExecutorImpl::new(4);
    let id = exec.create_timer(1);
    assert_eq!(exec.poll(id, "waker"), TimerPoll::Pending);
}

#[test]
fn registered_waker_is_handed_back_exactly_once() {
    let mut exec: TimerExecutorImpl<&'static str> = TimerExecutorImpl::new(4);
    let id = exec.create_timer(2);
    assert_eq!(exec.poll(id, "waker"), TimerPoll::Pending);
    assert!(exec.tick().is_empty());
    let wakes = exec.tick();
    assert_eq!(wakes, vec![(id, "waker")]);
    // the registration is consumed with the firing: later ticks return it
    // to nobody
    for _ in 0..8 {
        assert!(exec.tick().is_empty());
    }
}

#[test]
fn firing_without_a_registered_waker_waits_for_a_poll() {
    let mut exec: TimerExecutorImpl<u32> = TimerExecutorImpl::new(4);
    let id = exec.create_timer(1);
    let wakes = exec.tick();
    assert!(wakes.is_empty());
    assert_eq!(exec.poll(id, 0), TimerPoll::Ready);
}

#[test]
fn ready_is_observed_at_most_once_per_id() {
    let mut exec: TimerExecutorImpl<u32> = TimerExecutorImpl::new(4);
    let id = exec.create_timer(1);
    exec.tick();
    assert_eq!(exec.poll(id, 1), TimerPoll::Ready);
    assert_eq!(exec.poll(id, 2), TimerPoll::Pending);
    for _ in 0..8 {
        exec.tick();
    }
    assert_eq!(exec.poll(id, 3), TimerPoll::Pending);
}

#[test]
fn later_registration_displaces_the_earlier_one() {
    let mut exec: TimerExecutorImpl<&'static str> = TimerExecutorImpl::new(4);
    let id = exec.create_timer(1);
    assert_eq!(exec.poll(id, "first"), TimerPoll::Pending);
    assert_eq!(exec.poll(id, "second"), TimerPoll::Pending);
    let wakes = exec.tick();
    assert_eq!(wakes, vec![(id, "second")]);
}

#[test]
fn polling_an_unknown_id_registers_and_stays_pending() {
    let mut exec: TimerExecutorImpl<u32> = TimerExecutorImpl::new(4);
    assert_eq!(exec.poll(99, 7), TimerPoll::Pending);
    assert!(exec.tick().is_empty());
}

#[test]
fn timeout_converts_duration_by_rounding_up() {
    // tick duration 10 ms: a 25 ms timeout rounds up to 3 ticks, so it is
    // not observable before 30 ms have elapsed
    let mut exec: TimerExecutor<u32> = TimerExecutor::new(8, 10);
    let handle = exec.timeout(25);
    assert_eq!(handle.timer_id(), 1);
    assert_eq!(handle.poll(&mut exec, 1), TimerPoll::Pending);
    assert!(exec.tick().is_empty());
    assert!(exec.tick().is_empty());
    let wakes = exec.tick();
    assert_eq!(wakes, vec![(1, 1)]);
    assert_eq!(handle.poll(&mut exec, 2), TimerPoll::Ready);
    assert_eq!(handle.poll(&mut exec, 3), TimerPoll::Pending);
}

#[test]
fn sub_tick_duration_is_clamped_to_one_tick() {
    let mut exec: TimerExecutor<u32> = TimerExecutor::new(8, 10);
    let handle = exec.timeout(0);
    let wakes = exec.tick();
    assert!(wakes.is_empty());
    assert_eq!(exec.poll(&handle, 4), TimerPoll::Ready);
}

#[test]
fn timer_is_not_observed_before_its_duration_in_ticks() {
    // 30 ms at 10 ms per tick: not fired before tick 3
    let mut exec: TimerExecutor<u32> = TimerExecutor::new(4, 10);
    let handle = exec.timeout(30);
    for _ in 1..=2 {
        assert!(exec.tick().is_empty());
        assert_eq!(exec.poll(&handle, 0), TimerPoll::Pending);
    }
    exec.tick();
    assert_eq!(exec.poll(&handle, 0), TimerPoll::Ready);
}

#[test]
fn cloned_handles_share_one_firing() {
    let mut exec: TimerExecutor<u32> = TimerExecutor::new(4, 10);
    let handle = exec.timeout(10);
    let other = handle.clone();
    assert_eq!(other.timer_id(), handle.timer_id());
    exec.tick();
    assert_eq!(other.poll(&mut exec, 0), TimerPoll::Ready);
    assert_eq!(handle.poll(&mut exec, 0), TimerPoll::Pending);
}

#[test]
fn independent_executors_do_not_share_state() {
    let mut a: TimerExecutor<u32> = TimerExecutor::new(4, 10);
    let mut b: TimerExecutor<u32> = TimerExecutor::new(4, 10);
    let ta = a.timeout(10);
    let _tb = b.timeout(10);
    a.tick();
    assert_eq!(a.poll(&ta, 0), TimerPoll::Ready);
    let tb2 = b.timeout(10);
    assert_eq!(tb2.timer_id(), 2);
}

#[test]
fn tick_duration_is_recorded() {
    let exec: TimerExecutor<u32> = TimerExecutor::new(4, 25);
    assert_eq!(exec.tick_duration_ms(), 25);
    assert!(!exec.ids_exhausted());
}

#[test]
fn driver_runs_only_while_another_owner_remains() {
    assert!(driver_should_continue(2));
    assert!(driver_should_continue(17));
    assert!(!driver_should_continue(1));
    assert!(!driver_should_continue(0));
}

#[test]
fn default_scale_wheel_fires_at_the_converted_tick() {
    // 35 ms at a 10 ms tick rounds up to 4 ticks
    let mut exec: TimerExecutor<u32> = TimerExecutor::new(3600, 10);
    let handle = exec.timeout(35);
    for _ in 1..=3 {
        assert!(exec.tick().is_empty());
        assert_eq!(exec.poll(&handle, 0), TimerPoll::Pending);
    }
    // the firing tick hands back the waker the last poll registered
    assert_eq!(exec.tick(), vec![(handle.timer_id(), 0)]);
    assert_eq!(exec.poll(&handle, 0), TimerPoll::Ready);
}
