use std::cell::RefCell;
use std::rc::Rc;

use reactor::event::{Event, READABLE};
use reactor::event_loop::{EventLoop, Multiplexer, ReadyRecord};
use reactor::listener::{AcceptSource, ListenerHandler, TcpListener, drain_accepts};

/// A scripted accept backlog: hands out queued connection descriptors, then
/// reports exhaustion, counting both the closes and the exhaustion
/// observations.
struct FakeBacklog {
    pending: Vec<i32>,
    pos: usize,
    closed: Rc<RefCell<Vec<i32>>>,
    exhausted: Rc<RefCell<u32>>,
}

impl FakeBacklog {
    fn new(pending: Vec<i32>) -> FakeBacklog {
        FakeBacklog {
            pending,
            pos: 0,
            closed: Rc::new(RefCell::new(Vec::new())),
            exhausted: Rc::new(RefCell::new(0)),
        }
    }
}

impl AcceptSource for FakeBacklog {
    fn accept(&mut self) -> i32 {
        if self.pos < self.pending.len() {
            let fd = self.pending[self.pos];
            self.pos += 1;
            fd
        } else {
            *self.exhausted.borrow_mut() += 1;
            -1
        }
    }

    fn close_conn(&mut self, fd: i32) {
        self.closed.borrow_mut().push(fd);
    }
}

/// A minimal scripted multiplexer for the listener scenarios.
struct ListenerMux {
    batches: Vec<Vec<ReadyRecord>>,
    cursor: usize,
}

impl Multiplexer for ListenerMux {
    fn add(&mut self, _fd: i32, _interest: u32, _tag: u64) -> bool {
        true
    }

    fn modify(&mut self, _fd: i32, _interest: u32, _tag: u64) -> bool {
        true
    }

    fn delete(&mut self, _fd: i32) -> bool {
        true
    }

    fn wait(
        &mut self,
        buf: &mut Vec<ReadyRecord>,
        _max_entries: usize,
        _timeout_ticks: i64,
    ) -> i64 {
        buf.clear();
        if self.cursor < self.batches.len() {
            for r in &self.batches[self.cursor] {
                buf.push(*r);
            }
            self.cursor += 1;
        }
        buf.len() as i64
    }

    fn close_fd(&mut self, _fd: i32) {}

    fn now_ticks(&mut self) -> u64 {
        0
    }
}

#[test]
fn drain_takes_every_queued_connection_then_stops() {
    // K queued connections: exactly K accept completions, then exactly one
    // "no more pending" observation
    let src = FakeBacklog::new(vec![31, 32, 33, 34]);
    let closed = src.closed.clone();
    let exhausted = src.exhausted.clone();
    let mut src = src;
    let count = drain_accepts(&mut src).0;
    assert_eq!(count, 4);
    assert_eq!(*closed.borrow(), vec![31, 32, 33, 34]);
    assert_eq!(*exhausted.borrow(), 1);
}

#[test]
fn drain_on_an_empty_backlog_accepts_nothing() {
    let src = FakeBacklog::new(vec![]);
    let exhausted = src.exhausted.clone();
    let mut src = src;
    assert_eq!(drain_accepts(&mut src).0, 0);
    assert_eq!(*exhausted.borrow(), 1);
}

#[test]
fn one_notification_drains_the_whole_backlog() {
    // edge-triggered accept through the reactor: one readiness record, K
    // queued connections, K accepts and closes, one exhaustion observation
    let src = FakeBacklog::new(vec![70, 71, 72]);
    let closed = src.closed.clone();
    let exhausted = src.exhausted.clone();
    let mux = ListenerMux {
        batches: vec![vec![ReadyRecord { tag: 0, flags: READABLE }]],
        cursor: 0,
    };
    let mut lp: EventLoop<ListenerMux, ListenerHandler<FakeBacklog>> = EventLoop::new(mux);
    let listener = TcpListener { fd: 60 };
    let id = listener.register(&mut lp, src).unwrap();
    assert_eq!(id.index, 0);
    assert_eq!(lp.live_count(), 1);
    lp.run_cycle();
    assert_eq!(*closed.borrow(), vec![70, 71, 72]);
    assert_eq!(*exhausted.borrow(), 1);
    // the listener stays registered
    assert_eq!(lp.live_count(), 1);
}

#[test]
fn three_queued_connections_are_observed_and_closed() {
    // the server scenario over scripted capabilities: a listener registered
    // with no timeout, three pending connections, one notification; the
    // default handler path observes and closes exactly three
    let src = FakeBacklog::new(vec![80, 81, 82]);
    let closed = src.closed.clone();
    let mux = ListenerMux {
        batches: vec![vec![ReadyRecord { tag: 0, flags: READABLE }], vec![]],
        cursor: 0,
    };
    let mut lp: EventLoop<ListenerMux, ListenerHandler<FakeBacklog>> = EventLoop::new(mux);
    lp.register(Event::new(62), ListenerHandler::new(src), 0).unwrap();
    lp.run(2);
    assert_eq!(closed.borrow().len(), 3);
    assert_eq!(*closed.borrow(), vec![80, 81, 82]);
    assert_eq!(lp.live_count(), 1);
}

#[test]
fn listener_rejects_a_second_registration_of_its_descriptor() {
    let mux = ListenerMux { batches: vec![], cursor: 0 };
    let mut lp: EventLoop<ListenerMux, ListenerHandler<FakeBacklog>> = EventLoop::new(mux);
    let first = TcpListener { fd: 61 };
    assert!(first.register(&mut lp, FakeBacklog::new(vec![])).is_ok());
    let second = TcpListener { fd: 61 };
    assert!(second.register(&mut lp, FakeBacklog::new(vec![])).is_err());
    assert_eq!(lp.live_count(), 1);
}
