use reactor::NO_TIMERS;
use reactor::timer_wheel::{Timer, TimerWheel};

#[test]
fn new_wheel_has_no_timers() {
    let w: TimerWheel<u32> = TimerWheel::new(3, 10);
    assert_eq!(w.wake_at(), NO_TIMERS);
    assert!(!w.expired(u64::MAX));
}

#[test]
fn timer_node_keeps_expiry_and_payload() {
    let t = Timer::new(42, "conn");
    assert_eq!(t.expire_at, 42);
    assert_eq!(t.data, "conn");
}

#[test]
fn wake_at_reports_smallest_expiry() {
    let mut w: TimerWheel<u32> = TimerWheel::new(3, 0);
    w.link(50, 1);
    w.link(20, 2);
    w.link(90, 3);
    assert_eq!(w.wake_at(), 20);
    assert!(w.expired(20));
    assert!(!w.expired(19));
}

#[test]
fn sweep_fires_all_due_in_expiry_order() {
    // strictly increasing expiry ticks; sweeping at the largest fires each
    // exactly once, in order, and leaves the wheel empty
    let mut w: TimerWheel<u32> = TimerWheel::new(3, 0);
    w.link(5, 100);
    w.link(8, 200);
    w.link(13, 300);
    let fired = w.run(13);
    assert_eq!(fired, vec![100, 200, 300]);
    assert_eq!(w.wake_at(), NO_TIMERS);
    // a second sweep finds nothing more: no double fire
    let again = w.run(14);
    assert!(again.is_empty());
}

#[test]
fn sweep_fires_only_what_is_due() {
    let mut w: TimerWheel<u32> = TimerWheel::new(3, 0);
    w.link(5, 100);
    w.link(8, 200);
    let fired = w.run(6);
    assert_eq!(fired, vec![100]);
    assert_eq!(w.wake_at(), 8);
    let fired2 = w.run(8);
    assert_eq!(fired2, vec![200]);
    assert_eq!(w.wake_at(), NO_TIMERS);
}

#[test]
fn nodes_sharing_a_tick_fire_in_linking_order() {
    let mut w: TimerWheel<u32> = TimerWheel::new(3, 0);
    w.link(7, 1);
    w.link(7, 2);
    w.link(7, 3);
    assert_eq!(w.run(7), vec![1, 2, 3]);
}

#[test]
fn backward_jump_fires_nothing_and_keeps_cursor() {
    let mut w: TimerWheel<u32> = TimerWheel::new(3, 0);
    let fired = w.run(100);
    assert!(fired.is_empty());
    w.link(150, 7);
    // the clock jumps backward: zero additional timeouts, no corruption
    let fired = w.run(40);
    assert!(fired.is_empty());
    assert_eq!(w.wake_at(), 150);
    // standing still fires nothing either
    let fired = w.run(100);
    assert!(fired.is_empty());
    // once time really reaches the deadline, it still fires exactly once
    assert_eq!(w.run(150), vec![7]);
    assert_eq!(w.wake_at(), NO_TIMERS);
}

#[test]
fn deadline_already_past_fires_on_next_sweep() {
    let mut w: TimerWheel<u32> = TimerWheel::new(3, 0);
    let _ = w.run(30);
    w.link(10, 9);
    assert_eq!(w.run(31), vec![9]);
}

#[test]
fn unlink_cancels_and_is_idempotent() {
    let mut w: TimerWheel<u32> = TimerWheel::new(3, 0);
    let a = w.link(5, 100);
    w.link(9, 200);
    w.unlink(a);
    w.unlink(a);
    assert_eq!(w.wake_at(), 9);
    assert_eq!(w.run(20), vec![200]);
}

#[test]
fn rearming_unlinks_then_relinks() {
    // re-arming a deadline is unlink-then-link: never a duplicate node
    let mut w: TimerWheel<u32> = TimerWheel::new(3, 0);
    let a = w.link(5, 100);
    w.unlink(a);
    w.link(12, 100);
    assert_eq!(w.run(20), vec![100]);
}
