use std::cell::RefCell;
use std::rc::Rc;

use reactor::event::{Event, HANG_UP, READABLE};
use reactor::NO_TIMERS;
use reactor::event_loop::{
    EventHandler, EventId, EventLoop, Multiplexer, ReadyRecord, RegistrationError, WAIT_CAP,
    wait_budget,
};

/// A scripted multiplexer: hands out prepared readiness batches and clock
/// readings, and records every control call.
struct FakeMux {
    batches: Vec<Vec<ReadyRecord>>,
    batch_cursor: usize,
    times: Vec<u64>,
    time_cursor: usize,
    accept_adds: bool,
    fail_waits: u32,
    added: Rc<RefCell<Vec<(i32, u64)>>>,
    deleted: Rc<RefCell<Vec<i32>>>,
    closed_fds: Rc<RefCell<Vec<i32>>>,
}

impl FakeMux {
    fn new(times: Vec<u64>, batches: Vec<Vec<ReadyRecord>>) -> FakeMux {
        FakeMux {
            batches,
            batch_cursor: 0,
            times,
            time_cursor: 0,
            accept_adds: true,
            fail_waits: 0,
            added: Rc::new(RefCell::new(Vec::new())),
            deleted: Rc::new(RefCell::new(Vec::new())),
            closed_fds: Rc::new(RefCell::new(Vec::new())),
        }
    }
}

impl Multiplexer for FakeMux {
    fn add(&mut self, fd: i32, _interest: u32, tag: u64) -> bool {
        if self.accept_adds {
            self.added.borrow_mut().push((fd, tag));
            true
        } else {
            false
        }
    }

    fn modify(&mut self, _fd: i32, _interest: u32, _tag: u64) -> bool {
        true
    }

    fn delete(&mut self, fd: i32) -> bool {
        self.deleted.borrow_mut().push(fd);
        true
    }

    fn wait(
        &mut self,
        buf: &mut Vec<ReadyRecord>,
        _max_entries: usize,
        _timeout_ticks: i64,
    ) -> i64 {
        if self.fail_waits > 0 {
            self.fail_waits -= 1;
            return -1;
        }
        buf.clear();
        if self.batch_cursor < self.batches.len() {
            for r in &self.batches[self.batch_cursor] {
                buf.push(*r);
            }
            self.batch_cursor += 1;
        }
        buf.len() as i64
    }

    fn close_fd(&mut self, fd: i32) {
        self.closed_fds.borrow_mut().push(fd);
    }

    fn now_ticks(&mut self) -> u64 {
        let t = if self.time_cursor < self.times.len() {
            self.times[self.time_cursor]
        } else {
            *self.times.last().unwrap_or(&0)
        };
        self.time_cursor += 1;
        t
    }
}

/// A callback pair that counts its invocations.
#[derive(Clone)]
struct Probe {
    ready: Rc<RefCell<u32>>,
    closed: Rc<RefCell<u32>>,
    keep: bool,
}

impl Probe {
    fn new(keep: bool) -> Probe {
        Probe { ready: Rc::new(RefCell::new(0)), closed: Rc::new(RefCell::new(0)), keep }
    }
}

impl EventHandler for Probe {
    fn on_ready(&mut self, _event: &mut Event) -> bool {
        *self.ready.borrow_mut() += 1;
        self.keep
    }

    fn on_close(&mut self, _event: &mut Event) {
        *self.closed.borrow_mut() += 1;
    }
}

fn tag_for(id: EventId) -> u64 {
    (id.gen as u64) << 32 | id.index as u64
}

#[test]
fn accounting_matches_registrations_minus_removals() {
    let mux = FakeMux::new(vec![0], vec![]);
    let mut lp: EventLoop<FakeMux, Probe> = EventLoop::new(mux);
    assert_eq!(lp.live_count(), 0);
    let p1 = Probe::new(true);
    let p2 = Probe::new(true);
    let p3 = Probe::new(true);
    let id1 = lp.register(Event::new(10), p1.clone(), 0).unwrap();
    let _id2 = lp.register(Event::new(11), p2.clone(), 0).unwrap();
    let _id3 = lp.register(Event::new(12), p3.clone(), 0).unwrap();
    assert_eq!(lp.live_count(), 3);
    lp.unregister(id1);
    assert_eq!(lp.live_count(), 2);
    assert_eq!(*p1.closed.borrow(), 1);
    // unregistering again is an idempotent no-op: no double free
    lp.unregister(id1);
    assert_eq!(lp.live_count(), 2);
    assert_eq!(*p1.closed.borrow(), 1);
    assert_eq!(*p2.closed.borrow(), 0);
    assert_eq!(*p3.closed.borrow(), 0);
}

#[test]
fn duplicate_descriptor_is_rejected() {
    let mux = FakeMux::new(vec![0], vec![]);
    let mut lp: EventLoop<FakeMux, Probe> = EventLoop::new(mux);
    let id = lp.register(Event::new(7), Probe::new(true), 0).unwrap();
    let r = lp.register(Event::new(7), Probe::new(true), 0);
    assert_eq!(r, Err(RegistrationError::DuplicateDescriptor));
    assert_eq!(lp.live_count(), 1);
    // once the first event is gone, the descriptor may be watched again
    lp.unregister(id);
    assert!(lp.register(Event::new(7), Probe::new(true), 0).is_ok());
}

#[test]
fn closed_descriptor_is_rejected() {
    let mux = FakeMux::new(vec![0], vec![]);
    let mut lp: EventLoop<FakeMux, Probe> = EventLoop::new(mux);
    let r = lp.register(Event::new(-1), Probe::new(true), 0);
    assert_eq!(r, Err(RegistrationError::BadDescriptor));
}

#[test]
fn timeout_past_tick_space_is_rejected() {
    let mux = FakeMux::new(vec![u64::MAX - 1], vec![]);
    let mut lp: EventLoop<FakeMux, Probe> = EventLoop::new(mux);
    let r = lp.register(Event::new(4), Probe::new(true), 1);
    assert_eq!(r, Err(RegistrationError::TimeoutOverflow));
}

#[test]
fn multiplexer_refusal_drops_event_and_closes_descriptor() {
    let mut mux = FakeMux::new(vec![0], vec![]);
    mux.accept_adds = false;
    let closed_fds = mux.closed_fds.clone();
    let mut lp: EventLoop<FakeMux, Probe> = EventLoop::new(mux);
    let p = Probe::new(true);
    let r = lp.register(Event::new(9), p.clone(), 0);
    assert_eq!(r, Err(RegistrationError::MultiplexerRefused));
    assert_eq!(lp.live_count(), 0);
    assert_eq!(*p.closed.borrow(), 1);
    assert_eq!(*closed_fds.borrow(), vec![9]);
}

#[test]
fn ready_callback_runs_once_per_notification() {
    let p = Probe::new(true);
    let batches = vec![vec![ReadyRecord { tag: 0, flags: READABLE }]];
    let mux = FakeMux::new(vec![0, 1], batches);
    let mut lp: EventLoop<FakeMux, Probe> = EventLoop::new(mux);
    let id = lp.register(Event::new(20), p.clone(), 0).unwrap();
    assert_eq!(tag_for(id), 0);
    lp.run_cycle();
    assert_eq!(*p.ready.borrow(), 1);
    assert_eq!(*p.closed.borrow(), 0);
    assert_eq!(lp.live_count(), 1);
}

#[test]
fn ready_false_closes_exactly_once() {
    let p = Probe::new(false);
    let batches = vec![
        vec![ReadyRecord { tag: 0, flags: READABLE }],
        vec![ReadyRecord { tag: 0, flags: READABLE }],
    ];
    let mux = FakeMux::new(vec![0, 1, 2], batches);
    let deleted = mux.deleted.clone();
    let closed_fds = mux.closed_fds.clone();
    let mut lp: EventLoop<FakeMux, Probe> = EventLoop::new(mux);
    let id = lp.register(Event::new(21), p.clone(), 0).unwrap();
    assert_eq!(tag_for(id), 0);
    lp.run_cycle();
    assert_eq!(*p.ready.borrow(), 1);
    assert_eq!(*p.closed.borrow(), 1);
    assert_eq!(lp.live_count(), 0);
    assert_eq!(*deleted.borrow(), vec![21]);
    assert_eq!(*closed_fds.borrow(), vec![21]);
    // the second, now stale, notification fires nothing further
    lp.run_cycle();
    assert_eq!(*p.ready.borrow(), 1);
    assert_eq!(*p.closed.borrow(), 1);
}

#[test]
fn closing_a_descriptor_twice_is_a_no_op() {
    let mut e = Event::new(5);
    assert_eq!(e.get_fd(), 5);
    assert_eq!(e.close_fd(), Some(5));
    assert_eq!(e.get_fd(), -1);
    assert_eq!(e.close_fd(), None);
    assert_eq!(e.get_fd(), -1);
}

#[test]
fn terminal_condition_preempts_suspension() {
    let p = Probe::new(true);
    let batches = vec![vec![ReadyRecord { tag: 0, flags: HANG_UP }]];
    let mux = FakeMux::new(vec![0, 1], batches);
    let mut lp: EventLoop<FakeMux, Probe> = EventLoop::new(mux);
    let mut ev = Event::new(22);
    ev.wait = true;
    let id = lp.register(ev, p.clone(), 0).unwrap();
    assert_eq!(tag_for(id), 0);
    lp.run_cycle();
    // closed and destroyed regardless of the suspended flag, on_ready never ran
    assert_eq!(*p.ready.borrow(), 0);
    assert_eq!(*p.closed.borrow(), 1);
    assert_eq!(lp.live_count(), 0);
}

#[test]
fn suspended_event_is_skipped() {
    let p = Probe::new(true);
    let batches = vec![vec![ReadyRecord { tag: 0, flags: READABLE }]];
    let mux = FakeMux::new(vec![0, 1], batches);
    let mut lp: EventLoop<FakeMux, Probe> = EventLoop::new(mux);
    let mut ev = Event::new(23);
    ev.wait = true;
    let id = lp.register(ev, p.clone(), 0).unwrap();
    assert_eq!(tag_for(id), 0);
    lp.run_cycle();
    assert_eq!(*p.ready.borrow(), 0);
    assert_eq!(*p.closed.borrow(), 0);
    assert_eq!(lp.live_count(), 1);
}

#[test]
fn stale_identifier_is_ignored() {
    let p = Probe::new(true);
    let mux = FakeMux::new(vec![0, 1], vec![]);
    let mut lp: EventLoop<FakeMux, Probe> = EventLoop::new(mux);
    let id = lp.register(Event::new(24), p.clone(), 0).unwrap();
    lp.unregister(id);
    assert_eq!(*p.closed.borrow(), 1);
    // a record carrying the stale tag finds nothing: the generation moved on
    let batches = vec![vec![ReadyRecord { tag: tag_for(id), flags: READABLE }]];
    let mux = FakeMux::new(vec![0, 1], batches);
    let mut lp2: EventLoop<FakeMux, Probe> = EventLoop::new(mux);
    let p2 = Probe::new(true);
    let id2 = lp2.register(Event::new(25), p2.clone(), 0).unwrap();
    lp2.unregister(id2);
    lp2.run_cycle();
    assert_eq!(*p2.ready.borrow(), 0);
    assert_eq!(*p2.closed.borrow(), 1);
}

#[test]
fn slot_reuse_advances_the_generation() {
    let mux = FakeMux::new(vec![0], vec![]);
    let mut lp: EventLoop<FakeMux, Probe> = EventLoop::new(mux);
    let id1 = lp.register(Event::new(30), Probe::new(true), 0).unwrap();
    lp.unregister(id1);
    let id2 = lp.register(Event::new(31), Probe::new(true), 0).unwrap();
    assert_eq!(id1.index, id2.index);
    assert_ne!(id1.gen, id2.gen);
}

#[test]
fn timeout_expiry_closes_the_event() {
    let p = Probe::new(true);
    let mux = FakeMux::new(vec![100, 106], vec![]);
    let mut lp: EventLoop<FakeMux, Probe> = EventLoop::new(mux);
    let _id = lp.register(Event::new(40), p.clone(), 5).unwrap();
    assert_eq!(lp.live_count(), 1);
    // the cycle's sweep reaches tick 106; the deadline at 105 fires once
    lp.run_cycle();
    assert_eq!(*p.closed.borrow(), 1);
    assert_eq!(lp.live_count(), 0);
    lp.run_cycle();
    assert_eq!(*p.closed.borrow(), 1);
}

#[test]
fn unregister_unlinks_the_pending_timer() {
    let p = Probe::new(true);
    let mux = FakeMux::new(vec![100, 106, 112], vec![]);
    let mut lp: EventLoop<FakeMux, Probe> = EventLoop::new(mux);
    let id = lp.register(Event::new(41), p.clone(), 5).unwrap();
    lp.unregister(id);
    assert_eq!(*p.closed.borrow(), 1);
    // the deadline would have fired at 105; nothing fires twice
    lp.run_cycle();
    lp.run_cycle();
    assert_eq!(*p.closed.borrow(), 1);
}

#[test]
fn transient_wait_error_is_retried_silently() {
    let p = Probe::new(true);
    let batches = vec![vec![ReadyRecord { tag: 0, flags: READABLE }]];
    let mut mux = FakeMux::new(vec![0, 1, 2], batches);
    mux.fail_waits = 1;
    let mut lp: EventLoop<FakeMux, Probe> = EventLoop::new(mux);
    let id = lp.register(Event::new(50), p.clone(), 0).unwrap();
    assert_eq!(tag_for(id), 0);
    // first cycle: the wait is interrupted; no progress, nothing dispatched
    assert!(!lp.run_cycle());
    assert_eq!(*p.ready.borrow(), 0);
    // second cycle goes through
    assert!(lp.run_cycle());
    assert_eq!(*p.ready.borrow(), 1);
    assert_eq!(lp.live_count(), 1);
}

#[test]
fn wait_budget_follows_the_next_deadline() {
    // no timer pending: wait indefinitely
    assert_eq!(wait_budget(NO_TIMERS, 5), -1);
    // deadline ahead within the cap: wait exactly that long
    assert_eq!(wait_budget(10, 5), 5);
    // deadline far ahead: the cap bounds the wait
    assert_eq!(wait_budget(1000, 5), WAIT_CAP as i64);
    // deadline already passed: do not block
    assert_eq!(wait_budget(3, 5), 0);
    assert_eq!(wait_budget(5, 5), 0);
}

#[test]
fn one_record_dispatches_one_event() {
    let p = Probe::new(true);
    let q = Probe::new(true);
    let mux = FakeMux::new(vec![0], vec![]);
    let mut lp: EventLoop<FakeMux, Probe> = EventLoop::new(mux);
    let id_p = lp.register(Event::new(70), p.clone(), 0).unwrap();
    let id_q = lp.register(Event::new(71), q.clone(), 0).unwrap();
    lp.dispatch_record(ReadyRecord { tag: tag_for(id_p), flags: READABLE });
    assert_eq!(*p.ready.borrow(), 1);
    assert_eq!(*q.ready.borrow(), 0);
    // a terminal record destroys exactly its own event
    lp.dispatch_record(ReadyRecord { tag: tag_for(id_q), flags: HANG_UP });
    assert_eq!(*q.closed.borrow(), 1);
    assert_eq!(*p.closed.borrow(), 0);
    assert_eq!(lp.live_count(), 1);
}

#[test]
fn run_drives_the_given_number_of_cycles() {
    let p = Probe::new(true);
    let batches = vec![
        vec![ReadyRecord { tag: 0, flags: READABLE }],
        vec![ReadyRecord { tag: 0, flags: READABLE }],
    ];
    let mux = FakeMux::new(vec![0, 1, 2, 3], batches);
    let mut lp: EventLoop<FakeMux, Probe> = EventLoop::new(mux);
    let id = lp.register(Event::new(51), p.clone(), 0).unwrap();
    assert_eq!(tag_for(id), 0);
    lp.run(3);
    assert_eq!(*p.ready.borrow(), 2);
    assert_eq!(lp.live_count(), 1);
}
