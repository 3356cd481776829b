//! The reactor's unit of registration: one descriptor, its readiness flags,
//! and the state the dispatch loop keeps about it.

use vstd::prelude::*;

verus! {

/// Reported by the multiplexer when the descriptor has data to read.
pub const READABLE: u32 = 0x001;

/// Reported when urgent out-of-band data is pending.
pub const PRIORITY: u32 = 0x002;

/// Reported when the descriptor can accept writes.
pub const WRITABLE: u32 = 0x004;

/// Reported on a descriptor error condition.
pub const ERROR: u32 = 0x008;

/// Reported when the descriptor was hung up.
pub const HANG_UP: u32 = 0x010;

/// Reported when the peer closed its end of the connection.
pub const PEER_CLOSED: u32 = 0x2000;

/// Interest modifier: notify on state transitions only; the consumer must
/// drain all available work before returning.
pub const EDGE_TRIGGERED: u32 = 0x8000_0000;

/// The interest mask the loop registers every event with: all readiness
/// conditions, terminal ones included, edge-triggered.
pub const INTEREST: u32 = READABLE | WRITABLE | PRIORITY | PEER_CLOSED | HANG_UP | ERROR
    | EDGE_TRIGGERED;

/// Readiness conditions the loop treats as terminal: the event is closed and
/// destroyed, preempting any pending suspension.
pub const TERMINAL: u32 = PEER_CLOSED | HANG_UP | ERROR;

/// The sentinel a closed descriptor reads as.
pub const CLOSED_FD: i32 = -1;

/// One registered I/O source: a descriptor handle (or the closed sentinel)
/// and its readiness flags. The callbacks and the timer back-link live
/// beside it in the loop's table.
pub struct Event {
    /// The descriptor handle, `CLOSED_FD` once closed. Treat as read-only
    /// outside the loop: close through `close_fd`.
    pub fd: i32,
    /// Whether the event has been installed into a loop.
    pub reg: bool,
    /// Suspended: an in-flight higher-level operation already claimed this
    /// tick, so the dispatch pass skips `on_ready`.
    pub wait: bool,
    /// Readable readiness was observed and not yet consumed.
    pub read: bool,
    /// Writable readiness was observed and not yet consumed.
    pub write: bool,
}

impl Event {
    /// The descriptor handle, `CLOSED_FD` once closed.
    pub open spec fn descriptor(&self) -> i32 {
        self.fd
    }

    /// The event with the reported readiness bits soaked up: `read` and
    /// `write` are set when the multiplexer reported them, everything else
    /// stays.
    pub open spec fn with_readiness(self, bits: u32) -> Event {
        Event {
            fd: self.fd,
            reg: self.reg,
            wait: self.wait,
            read: self.read || bits & READABLE != 0,
            write: self.write || bits & WRITABLE != 0,
        }
    }

    /// Builds an event for a descriptor. Readiness starts armed in both
    /// directions; the event is neither registered nor suspended.
    pub fn new(fd: i32) -> (e: Event)
        ensures
            e.descriptor() == fd,
            !e.reg,
            !e.wait,
            e.read,
            e.write,
    {
        Event { fd, reg: false, wait: false, read: true, write: true }
    }

    /// The descriptor handle, `CLOSED_FD` once closed.
    pub fn get_fd(&self) -> (fd: i32)
        ensures
            fd == self.descriptor(),
    {
        self.fd
    }

    /// Marks the descriptor closed and hands back the handle the caller must
    /// release, if any. Closing twice is a no-op: the second call changes
    /// nothing and hands back nothing.
    pub fn close_fd(&mut self) -> (was: Option<i32>)
        ensures
            final(self).descriptor() == CLOSED_FD,
            final(self).reg == old(self).reg,
            final(self).wait == old(self).wait,
            final(self).read == old(self).read,
            final(self).write == old(self).write,
            old(self).descriptor() != CLOSED_FD ==> was == Some(old(self).descriptor()),
            old(self).descriptor() == CLOSED_FD ==> was is None && *final(self) == *old(self),
    {
        if self.fd != CLOSED_FD {
            let fd = self.fd;
            self.fd = CLOSED_FD;
            Some(fd)
        } else {
            None
        }
    }
}

} // verus!
