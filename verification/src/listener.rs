//! The listening-socket consumer: registered as an event whose readiness
//! callback drains the accept backlog, edge-triggered style — every pending
//! connection is taken before the callback returns.
//!
//! Building the socket itself — resolve, socket, bind, listen — is platform
//! plumbing outside the reactor; the listener takes the finished descriptor
//! and an accept capability from there.

use vstd::prelude::*;

verus! {

use crate::NO_TIMERS;
use crate::event::Event;
use crate::event_loop::EventHandler;
use crate::event_loop::EventId;
use crate::event_loop::EventLoop;
use crate::event_loop::Multiplexer;
use crate::event_loop::RegistrationError;

/// Ticks of idleness after which a registered listener times out.
pub const LISTENER_TIMEOUT: u64 = 60;

/// Saturation bound of the accepted-connection counter.
pub const COUNT_MAX: u64 = 0xffff_ffff_ffff_ffff;

/// The accept capability of a listening socket.
pub trait AcceptSource {
    /// Takes one pending connection, non-blocking: its descriptor, or a
    /// negative value when the backlog is drained.
    fn accept(&mut self) -> i32;

    /// Releases an accepted connection's descriptor.
    fn close_conn(&mut self, fd: i32);
}

/// The shape a finished drain leaves behind, over the sequence of answers
/// the accept capability gave: the first `count` answers each handed out a
/// connection, and, unless the count saturated, exactly one further answer
/// observed the drained backlog.
pub open spec fn drained(answers: Seq<i32>, count: u64) -> bool {
    &&& count <= answers.len()
    &&& (forall|k: int| 0 <= k < count ==> answers[k] >= 0)
    &&& (count < COUNT_MAX ==> answers.len() == count + 1 && answers[count as int] < 0)
    &&& (count == COUNT_MAX ==> answers.len() == count)
}

/// Accept until exhausted: takes connections off `src` one at a time until
/// it reports none pending, closing each immediately — the core's default
/// behaviour for accepted connections; production use supplies its own
/// handler. Hands back how many connections were taken, saturating at
/// `COUNT_MAX`, together with the answers observed: each of the counted
/// answers accepted a connection that was closed in turn, and one final
/// answer — unless the count saturated — was the "none pending"
/// observation that ends an edge-triggered drain.
pub fn drain_accepts<S: AcceptSource>(src: &mut S) -> (r: (u64, Ghost<Seq<i32>>))
    ensures
        drained(r.1@, r.0),
{
    let mut count: u64 = 0;
    let mut fd = src.accept();
    let ghost mut answers: Seq<i32> = Seq::empty().push(fd);
    while fd >= 0 && count < COUNT_MAX
        invariant
            count <= COUNT_MAX,
            forall|k: int| 0 <= k < count ==> answers[k] >= 0,
            count < COUNT_MAX ==> answers.len() == count + 1 && answers[count as int] == fd,
            count == COUNT_MAX ==> answers.len() == count,
        decreases COUNT_MAX - count,
    {
        src.close_conn(fd);
        count = count + 1;
        if count < COUNT_MAX {
            fd = src.accept();
            proof {
                answers = answers.push(fd);
            }
        }
    }
    (count, Ghost(answers))
}

/// The listener's callback pair. `on_ready` drains the accept backlog and
/// keeps the event; `on_close` has nothing of its own to release, since the
/// loop's one destruction path closes the listening descriptor exactly
/// once.
pub struct ListenerHandler<S: AcceptSource> {
    /// The accept capability of the listening socket.
    pub src: S,
    /// Connections accepted and closed so far, saturating: the injected
    /// observation point for consumers and tests.
    pub accepted: u64,
}

impl<S: AcceptSource> ListenerHandler<S> {
    /// Wraps an accept capability; the counter starts at zero.
    pub fn new(src: S) -> (h: ListenerHandler<S>)
        ensures
            h.accepted == 0,
    {
        ListenerHandler { src, accepted: 0 }
    }

    /// Folds one drain's count into the accepted total, saturating at
    /// `COUNT_MAX`.
    pub fn absorb(&mut self, n: u64)
        ensures
            final(self).accepted == (if old(self).accepted + n <= COUNT_MAX {
                (old(self).accepted + n) as u64
            } else {
                COUNT_MAX
            }),
            final(self).src == old(self).src,
    {
        self.accepted = if n > COUNT_MAX - self.accepted {
            COUNT_MAX
        } else {
            self.accepted + n
        };
    }
}

impl<S: AcceptSource> EventHandler for ListenerHandler<S> {
    /// Drains the backlog as [`drain_accepts`] states, folds the count into
    /// the accepted total, and keeps the event: the listener never asks for
    /// its own closure, and it leaves the event record alone.
    fn on_ready(&mut self, event: &mut Event) -> (keep: bool)
        ensures
            keep,
            final(self).accepted >= old(self).accepted,
            *final(event) == *old(event),
    {
        let r = drain_accepts(&mut self.src);
        self.absorb(r.0);
        true
    }

    fn on_close(&mut self, event: &mut Event) {
    }
}

/// A listening socket, held by descriptor.
pub struct TcpListener {
    /// The listening descriptor.
    pub fd: i32,
}

impl TcpListener {
    /// Registers the listener on the loop, with the accept-draining
    /// callback pair around `src` and the listener's fixed timeout.
    pub fn register<M: Multiplexer, S: AcceptSource>(
        self,
        ev_loop: &mut EventLoop<M, ListenerHandler<S>>,
        src: S,
    ) -> (r: Result<EventId, RegistrationError>)
        requires
            old(ev_loop).wf(),
        ensures
            final(ev_loop).wf(),
            r is Ok ==> final(ev_loop).is_live(r->Ok_0) && final(ev_loop).fd_of(r->Ok_0)
                == self.fd && final(ev_loop).live_events() == old(ev_loop).live_events() + 1
                && final(ev_loop).deadline_of(r->Ok_0) == Some(
                (old(ev_loop).now_tick() + LISTENER_TIMEOUT) as u64,
            ),
            r is Err ==> final(ev_loop).live_events() == old(ev_loop).live_events(),
            (r == Result::<EventId, RegistrationError>::Err(
                RegistrationError::DuplicateDescriptor,
            ) <==> self.fd >= 0 && old(ev_loop).has_fd(self.fd)),
            self.fd >= 0 && !old(ev_loop).has_fd(self.fd) && LISTENER_TIMEOUT < NO_TIMERS - old(
                ev_loop,
            ).now_tick() && old(ev_loop).live_events() < 0xffff_ffff ==> (r is Ok || r
                == Result::<EventId, RegistrationError>::Err(
                RegistrationError::MultiplexerRefused,
            )),
    {
        let fd = self.fd;
        let event = Event::new(fd);
        ev_loop.register(event, ListenerHandler::new(src), LISTENER_TIMEOUT)
    }
}

} // verus!
