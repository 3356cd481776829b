//! The reactor: owns the multiplexer capability, the table of live events,
//! and the timer wheel, and drives the wait/dispatch/expire cycle.
//!
//! Events live in a dense table addressed by a stable integer identifier; a
//! generation counter per table slot detects stale identifiers left over
//! from a destroyed event whose slot was reused. Readiness records carry the
//! (index, generation) pair packed into a tag, never a memory address.

use vstd::prelude::*;

verus! {

use crate::NO_TIMERS;
use crate::event::CLOSED_FD;
use crate::event::Event;
use crate::event::INTEREST;
use crate::event::READABLE;
use crate::event::TERMINAL;
use crate::event::WRITABLE;
use crate::timer_wheel::TimerWheel;
use crate::timer_wheel::due_ids;
use crate::timer_wheel::fired_in_order;

/// Capacity of the readiness buffer, allocated once and reused each cycle.
pub const MAX_READY: usize = 1024;

/// Upper bound, in ticks, on how long one wait may block even when the next
/// deadline is farther away.
pub const WAIT_CAP: u64 = 60;

/// First tag value whose slot index part does not fit the table: tags are
/// `generation * TAG_SPAN + index`.
pub const TAG_SPAN: u64 = 0x1_0000_0000;

/// One readiness record handed back by the multiplexer: the tag the
/// descriptor was registered under and the reported readiness bits.
#[derive(Clone, Copy)]
pub struct ReadyRecord {
    /// The tag given to the multiplexer at registration.
    pub tag: u64,
    /// Readiness bits, a combination of the flag constants of this crate.
    pub flags: u32,
}

/// Why a registration was refused. Each variant names the condition under
/// which it, and only it, is returned.
#[derive(Clone, Copy, PartialEq, Eq, Structural, Debug)]
pub enum RegistrationError {
    /// The event's descriptor was already closed (negative).
    BadDescriptor,
    /// A live event already watches the same descriptor.
    DuplicateDescriptor,
    /// `now + timeout` would pass the `NO_TIMERS` sentinel tick.
    TimeoutOverflow,
    /// The table holds the largest population an identifier can address.
    TableFull,
    /// The multiplexer declined to watch the descriptor; the descriptor was
    /// closed and the event dropped.
    MultiplexerRefused,
}

/// The stable identifier of a registered event: a table index and the
/// generation the slot had when the event moved in.
#[derive(Clone, Copy, PartialEq, Eq, Structural, Debug)]
pub struct EventId {
    /// Index of the event's table slot.
    pub index: u32,
    /// Generation of the slot at registration time.
    pub gen: u32,
}

/// The readiness multiplexer capability: what the reactor asks of the
/// operating system facility it stands on. Implementations perform the
/// actual waiting, watching and closing; the reactor is verified for every
/// behaviour an implementation may show.
pub trait Multiplexer {
    /// Starts watching `fd` with the given interest bits; readiness records
    /// for it carry `tag`. Hands back whether the facility accepted it.
    fn add(&mut self, fd: i32, interest: u32, tag: u64) -> bool;

    /// Changes the interest bits of a watched descriptor.
    fn modify(&mut self, fd: i32, interest: u32, tag: u64) -> bool;

    /// Stops watching a descriptor.
    fn delete(&mut self, fd: i32) -> bool;

    /// Blocks until readiness or until `timeout_ticks` have passed; fills
    /// `buf` with the ready records. A negative result is a transient
    /// interruption and the cycle is retried; `timeout_ticks` of -1 means
    /// wait indefinitely.
    fn wait(&mut self, buf: &mut Vec<ReadyRecord>, max_entries: usize, timeout_ticks: i64) -> i64;

    /// Releases a descriptor handle.
    fn close_fd(&mut self, fd: i32);

    /// The current absolute tick.
    fn now_ticks(&mut self) -> u64;
}

/// The callback pair of one event. The loop invokes `on_ready` once per
/// dispatch when readiness was observed and the event is not suspended, and
/// `on_close` exactly once before the event is destroyed.
pub trait EventHandler where Self: Sized {
    /// Readiness callback; returning false asks the loop to close the
    /// event. The handler may update the event's flags and may close its
    /// descriptor, but must not replace the descriptor with another one.
    fn on_ready(&mut self, event: &mut Event) -> (keep: bool)
        ensures
            final(event).descriptor() == old(event).descriptor() || final(event).descriptor()
                == CLOSED_FD,
    ;

    /// Release callback, run exactly once before destruction.
    fn on_close(&mut self, event: &mut Event);
}

/// The face of a reactor backend: the readiness-based event loop here and
/// any completion-based sibling satisfy the same drive/install/remove
/// surface, with the population accounting every backend owes — the live
/// population equals accepted registrations minus destructions, whatever
/// the cycles and callbacks did.
pub trait EventLoopHandle<H: EventHandler> where Self: Sized {
    /// The handle is in a state fit for driving.
    spec fn handle_inv(&self) -> bool;

    /// Number of live events the handle holds.
    spec fn live_of(&self) -> nat;

    /// Number of registrations the handle has accepted.
    spec fn registrations_of(&self) -> nat;

    /// Number of events the handle has destroyed.
    spec fn closures_of(&self) -> nat;

    /// Drives dispatch cycles, at most the given number. Cycles register
    /// nothing, and every event that goes away is accounted a destruction.
    fn run(&mut self, max_cycles: u64)
        requires
            old(self).handle_inv(),
        ensures
            final(self).handle_inv(),
            final(self).registrations_of() == old(self).registrations_of(),
            final(self).closures_of() >= old(self).closures_of(),
            final(self).live_of() + final(self).closures_of() == old(self).live_of() + old(
                self,
            ).closures_of(),
    ;

    /// Installs an event with its callback pair and an optional timeout.
    /// Success adds exactly one live event and one registration; a refusal
    /// adds neither.
    fn register(&mut self, event: Event, handler: H, timeout: u64) -> (r: Result<
        EventId,
        RegistrationError,
    >)
        requires
            old(self).handle_inv(),
        ensures
            final(self).handle_inv(),
            r is Ok ==> (final(self).live_of() == old(self).live_of() + 1 && final(self).registrations_of() == old(self).registrations_of() + 1 && final(self).closures_of()
                == old(self).closures_of()),
            r is Err ==> (final(self).live_of() == old(self).live_of() && final(self).registrations_of() == old(self).registrations_of() && final(self).closures_of()
                == old(self).closures_of()),
    ;

    /// Removes the event the identifier names, if it still lives: at most
    /// one destruction, and only of a live event.
    fn unregister(&mut self, id: EventId)
        requires
            old(self).handle_inv(),
        ensures
            final(self).handle_inv(),
            final(self).registrations_of() == old(self).registrations_of(),
            final(self).live_of() + final(self).closures_of() == old(self).live_of() + old(
                self,
            ).closures_of(),
            old(self).closures_of() <= final(self).closures_of() <= old(self).closures_of() + 1,
    ;
}

/// What one table slot holds about its event: the event itself, its
/// callback pair, and the back-link to its timer node, if a timeout is
/// armed. The linkage itself is owned by the wheel.
pub struct EventEntry<H> {
    /// The registered event.
    pub event: Event,
    /// Its callback pair.
    pub handler: H,
    /// Identifier of its pending timer node, if any.
    pub timer: Option<usize>,
}

struct EventSlot<H> {
    gen: u32,
    entry: Option<EventEntry<H>>,
}

spec fn count_live<H>(s: Seq<EventSlot<H>>) -> nat
    decreases s.len(),
{
    if s.len() == 0 {
        0
    } else {
        count_live(s.drop_last()) + (if s.last().entry is Some {
            1nat
        } else {
            0nat
        })
    }
}

proof fn lemma_count_push<H>(s: Seq<EventSlot<H>>, x: EventSlot<H>)
    ensures
        count_live(s.push(x)) == count_live(s) + (if x.entry is Some {
            1nat
        } else {
            0nat
        }),
{
    assert(s.push(x).drop_last() =~= s);
    assert(s.push(x).last() == x);
}

proof fn lemma_count_update<H>(s: Seq<EventSlot<H>>, i: int, x: EventSlot<H>)
    requires
        0 <= i < s.len(),
    ensures
        count_live(s.update(i, x)) == count_live(s) + (if x.entry is Some {
            1nat
        } else {
            0nat
        }) - (if s[i].entry is Some {
            1int
        } else {
            0int
        }),
    decreases s.len(),
{
    let t = s.update(i, x);
    if i == s.len() - 1 {
        assert(t.drop_last() =~= s.drop_last());
        assert(t.last() == x);
        assert(s.last() == s[i]);
    } else {
        assert(t.drop_last() =~= s.drop_last().update(i, x));
        assert(t.last() == s.last());
        lemma_count_update(s.drop_last(), i, x);
        assert(s.drop_last()[i] == s[i]);
    }
}

proof fn lemma_count_full<H>(s: Seq<EventSlot<H>>)
    requires
        forall|i: int| 0 <= i < s.len() ==> (#[trigger] s[i].entry) is Some,
    ensures
        count_live(s) == s.len(),
    decreases s.len(),
{
    if s.len() > 0 {
        assert(s.last() == s[s.len() - 1]);
        assert(forall|i: int|
            0 <= i < s.drop_last().len() ==> (#[trigger] s.drop_last()[i]) == s[i]);
        lemma_count_full(s.drop_last());
    }
}

/// The tag a slot's event is registered under.
pub open spec fn tag_of(index: u32, gen: u32) -> int {
    gen * (TAG_SPAN as int) + index
}

/// The identifier a readiness tag names.
pub open spec fn tag_target(tag: u64) -> EventId {
    EventId {
        index: ((tag as int) % (TAG_SPAN as int)) as u32,
        gen: ((tag as int) / (TAG_SPAN as int)) as u32,
    }
}

/// The tick budget for one blocking wait, computed from the wheel's next
/// deadline: indefinite (-1) when no timer is pending, zero when the next
/// deadline has already passed, else the distance to it, capped at
/// `WAIT_CAP`.
pub fn wait_budget(wake: u64, now: u64) -> (t: i64)
    ensures
        wake == NO_TIMERS ==> t == -1,
        wake != NO_TIMERS && wake <= now ==> t == 0,
        wake != NO_TIMERS && wake > now && wake - now <= WAIT_CAP ==> t == wake - now,
        wake != NO_TIMERS && wake > now && wake - now > WAIT_CAP ==> t == WAIT_CAP as i64,
{
    if wake == NO_TIMERS {
        -1
    } else if wake <= now {
        0
    } else {
        let d = wake - now;
        if d > WAIT_CAP {
            WAIT_CAP as i64
        } else {
            d as i64
        }
    }
}

proof fn lemma_tag_decode(index: u32, gen: u32)
    ensures
        tag_of(index, gen) % (TAG_SPAN as int) == index,
        tag_of(index, gen) / (TAG_SPAN as int) == gen,
        0 <= tag_of(index, gen) <= u64::MAX,
{
    assert(tag_of(index, gen) % (TAG_SPAN as int) == index && tag_of(index, gen) / (TAG_SPAN
        as int) == gen) by (nonlinear_arith)
        requires
            0 <= index < TAG_SPAN as int,
            0 <= gen,
            TAG_SPAN == 0x1_0000_0000u64,
    ;
    assert(0 <= tag_of(index, gen) <= u64::MAX) by (nonlinear_arith)
        requires
            0 <= index < TAG_SPAN as int,
            0 <= gen <= 0xffff_ffff,
            TAG_SPAN == 0x1_0000_0000u64,
    ;
}

/// The reactor. One instance owns its multiplexer handle, event table,
/// timer wheel and readiness buffer exclusively; all dispatch happens on
/// the thread driving it.
pub struct EventLoop<M: Multiplexer, H: EventHandler> {
    mux: M,
    now: u64,
    slots: Vec<EventSlot<H>>,
    wheel: TimerWheel<u64>,
    ready: Vec<ReadyRecord>,
    reg_count: Ghost<nat>,
    close_count: Ghost<nat>,
}

impl<M: Multiplexer, H: EventHandler> EventLoop<M, H> {
    /// Number of live events in the table.
    pub closed spec fn live_events(&self) -> nat {
        count_live(self.slots@)
    }

    /// Number of registrations accepted so far.
    pub closed spec fn registrations(&self) -> nat {
        self.reg_count@
    }

    /// Number of events destroyed so far, by unregistration, by a callback
    /// asking for closure, by a terminal readiness condition, or by a
    /// timeout.
    pub closed spec fn closures(&self) -> nat {
        self.close_count@
    }

    /// The loop's current absolute tick.
    pub closed spec fn now_tick(&self) -> u64 {
        self.now
    }

    /// The tick the timer wheel has been swept up to.
    pub closed spec fn swept_tick(&self) -> u64 {
        self.wheel.cursor()
    }

    /// Whether `id` names a live event: its slot exists, holds an event,
    /// and still has the generation `id` was minted with.
    pub closed spec fn is_live(&self, id: EventId) -> bool {
        &&& (id.index as int) < self.slots@.len()
        &&& self.slots@[id.index as int].gen == id.gen
        &&& self.slots@[id.index as int].entry is Some
    }

    /// The descriptor of the live event `id`.
    pub closed spec fn fd_of(&self, id: EventId) -> i32 {
        self.slots@[id.index as int].entry->Some_0.event.descriptor()
    }

    /// The event record of the live event `id`.
    pub closed spec fn event_of(&self, id: EventId) -> Event {
        self.slots@[id.index as int].entry->Some_0.event
    }

    /// The armed deadline of the event `id`: the absolute tick its pending
    /// timer node expires at, or `None` when it is not live or no timeout
    /// is armed.
    pub closed spec fn deadline_of(&self, id: EventId) -> Option<u64> {
        if self.is_live(id) && self.slots@[id.index as int].entry->Some_0.timer is Some {
            let t = self.slots@[id.index as int].entry->Some_0.timer->Some_0 as int;
            if self.wheel@.dom().contains(t) {
                Some(self.wheel@[t].0)
            } else {
                None
            }
        } else {
            None
        }
    }

    /// Whether some live event watches descriptor `fd`.
    pub closed spec fn has_fd(&self, fd: i32) -> bool {
        exists|i: int|
            0 <= i < self.slots@.len() && (#[trigger] self.slots@[i].entry) is Some
                && self.slots@[i].entry->Some_0.event.descriptor() == fd
    }

    /// Well-formedness of the reactor state.
    ///
    /// - The wheel is well-formed and every wheel node belongs to exactly
    ///   the live event its tag names, which links back to it.
    /// - A live event's armed timer back-link points at a wheel node
    ///   carrying that event's tag.
    /// - No two live events watch the same open descriptor.
    /// - The live population equals accepted registrations minus
    ///   destructions: no leak, no double free.
    pub closed spec fn wf(&self) -> bool {
        &&& self.wheel.wf()
        &&& self.slots@.len() <= 0xffff_ffff
        &&& (forall|i: int, j: int|
            0 <= i < self.slots@.len() && 0 <= j < self.slots@.len() && i != j && (
            #[trigger] self.slots@[i].entry) is Some && (#[trigger] self.slots@[j].entry) is Some
                && self.slots@[i].entry->Some_0.event.descriptor() >= 0
                ==> self.slots@[i].entry->Some_0.event.descriptor()
                != self.slots@[j].entry->Some_0.event.descriptor())
        &&& (forall|i: int|
            0 <= i < self.slots@.len() && (#[trigger] self.slots@[i].entry) is Some
                && self.slots@[i].entry->Some_0.timer is Some ==> {
                let t = self.slots@[i].entry->Some_0.timer->Some_0 as int;
                &&& self.wheel@.dom().contains(t)
                &&& self.wheel@[t].1 == tag_of(i as u32, self.slots@[i].gen)
            })
        &&& (forall|t: int| #[trigger]
            self.wheel@.dom().contains(t) ==> {
                let tag = self.wheel@[t].1 as int;
                let i = tag % (TAG_SPAN as int);
                let g = tag / (TAG_SPAN as int);
                &&& 0 <= t <= usize::MAX
                &&& i < self.slots@.len()
                &&& g <= u32::MAX
                &&& self.slots@[i as int].gen == g
                &&& self.slots@[i as int].entry is Some
                &&& self.slots@[i as int].entry->Some_0.timer == Some(t as usize)
            })
        &&& self.live_events() + self.close_count@ == self.reg_count@
    }

    /// A live event's descriptor, as `fd_of` reports it, is the descriptor
    /// of the event record `event_of` holds.
    pub proof fn lemma_fd_of_event(&self, id: EventId)
        ensures
            self.fd_of(id) == self.event_of(id).descriptor(),
    {
    }

    /// Accounting law: for any sequence of registrations, unregistrations
    /// and self-closures, the live population equals the registrations
    /// accepted minus the destructions performed.
    pub proof fn lemma_conservation(&self)
        requires
            self.wf(),
        ensures
            self.live_events() + self.closures() == self.registrations(),
    {
    }

    /// A fresh reactor around a multiplexer handle, with no events, no
    /// timers, and the clock read once from the capability. The readiness
    /// buffer is allocated here, once, and reused every cycle.
    pub fn new(mux: M) -> (r: Self)
        ensures
            r.wf(),
            r.live_events() == 0,
            r.registrations() == 0,
            r.closures() == 0,
    {
        let mut mux = mux;
        let now = mux.now_ticks();
        let mut ready: Vec<ReadyRecord> = Vec::with_capacity(MAX_READY);
        let wheel = TimerWheel::new(1, now);
        let r = EventLoop {
            mux,
            now,
            slots: Vec::new(),
            wheel,
            ready,
            reg_count: Ghost(0),
            close_count: Ghost(0),
        };
        r
    }

    /// Installs an event into the table and the multiplexer, watching the
    /// interest set edge-triggered, and arms a timeout of `timeout` ticks
    /// when `timeout > 0`. Hands back the event's stable identifier.
    ///
    /// Rejections, each if and only if its condition holds, checked in this
    /// order: a closed descriptor, a descriptor already watched, a timeout
    /// reaching past the tick space, a table at capacity. Otherwise the
    /// registration succeeds unless the multiplexer declines, in which case
    /// the event is dropped and its descriptor closed — no leak. A failed
    /// registration never changes the table.
    pub fn register(&mut self, event: Event, handler: H, timeout: u64) -> (r: Result<
        EventId,
        RegistrationError,
    >)
        requires
            old(self).wf(),
        ensures
            final(self).wf(),
            final(self).now_tick() == old(self).now_tick(),
            final(self).swept_tick() == old(self).swept_tick(),
            (r == Result::<EventId, RegistrationError>::Err(RegistrationError::BadDescriptor)
                <==> event.descriptor() < 0),
            (r == Result::<EventId, RegistrationError>::Err(
                RegistrationError::DuplicateDescriptor,
            ) <==> event.descriptor() >= 0 && old(self).has_fd(event.descriptor())),
            (r == Result::<EventId, RegistrationError>::Err(RegistrationError::TimeoutOverflow)
                <==> event.descriptor() >= 0 && !old(self).has_fd(event.descriptor()) && timeout
                > 0 && timeout >= NO_TIMERS - old(self).now_tick()),
            r == Result::<EventId, RegistrationError>::Err(RegistrationError::TableFull) ==> old(
                self,
            ).live_events() >= 0xffff_ffff,
            event.descriptor() >= 0 && !old(self).has_fd(event.descriptor()) && (timeout == 0
                || timeout < NO_TIMERS - old(self).now_tick()) && old(self).live_events()
                < 0xffff_ffff ==> (r is Ok || r == Result::<EventId, RegistrationError>::Err(
                RegistrationError::MultiplexerRefused,
            )),
            r is Err ==> {
                &&& final(self).live_events() == old(self).live_events()
                &&& final(self).registrations() == old(self).registrations()
                &&& final(self).closures() == old(self).closures()
                &&& (forall|id2: EventId| final(self).is_live(id2) == old(self).is_live(id2))
                &&& (forall|id2: EventId|
                    old(self).is_live(id2) ==> final(self).event_of(id2) == old(self).event_of(
                        id2,
                    ) && final(self).deadline_of(id2) == old(self).deadline_of(id2))
            },
            r is Ok ==> {
                &&& event.descriptor() >= 0
                &&& !old(self).has_fd(event.descriptor())
                &&& !old(self).is_live(r->Ok_0)
                &&& final(self).is_live(r->Ok_0)
                &&& final(self).fd_of(r->Ok_0) == event.descriptor()
                &&& final(self).has_fd(event.descriptor())
                &&& final(self).live_events() == old(self).live_events() + 1
                &&& final(self).registrations() == old(self).registrations() + 1
                &&& final(self).closures() == old(self).closures()
                &&& (timeout > 0 ==> final(self).deadline_of(r->Ok_0) == Some(
                    (old(self).now_tick() + timeout) as u64,
                ))
                &&& (timeout == 0 ==> final(self).deadline_of(r->Ok_0) is None)
                &&& (forall|id2: EventId|
                    id2 != r->Ok_0 ==> final(self).is_live(id2) == old(self).is_live(id2))
                &&& (forall|id2: EventId|
                    old(self).is_live(id2) ==> final(self).event_of(id2) == old(self).event_of(
                        id2,
                    ) && final(self).deadline_of(id2) == old(self).deadline_of(id2))
            },
    {
        let fd = event.get_fd();
        if fd < 0 {
            return Result::Err(RegistrationError::BadDescriptor);
        }
        let mut i: usize = 0;
        while i < self.slots.len()
            invariant
                *self == *old(self),
                old(self).wf(),
                i <= self.slots@.len(),
                fd == event.descriptor(),
                fd >= 0,
                forall|j: int|
                    0 <= j < i ==> !((#[trigger] self.slots@[j].entry) is Some
                        && self.slots@[j].entry->Some_0.event.descriptor() == fd),
            decreases self.slots@.len() - i,
        {
            let mut dup = false;
            match &self.slots[i].entry {
                Some(e) => {
                    if e.event.get_fd() == fd {
                        dup = true;
                    }
                },
                None => {},
            }
            if dup {
                proof {
                    assert(self.slots@[i as int].entry is Some
                        && self.slots@[i as int].entry->Some_0.event.descriptor() == fd);
                    assert(self.has_fd(fd));
                }
                return Result::Err(RegistrationError::DuplicateDescriptor);
            }
            i += 1;
        }
        proof {
            assert(!self.has_fd(fd));
        }
        if timeout > 0 && timeout >= NO_TIMERS - self.now {
            return Result::Err(RegistrationError::TimeoutOverflow);
        }
        let mut idx: usize = 0;
        let mut have_slot: bool = false;
        let mut j: usize = 0;
        while j < self.slots.len()
            invariant_except_break
                !have_slot,
            invariant
                *self == *old(self),
                j <= self.slots@.len(),
                forall|k: int| 0 <= k < j ==> (#[trigger] self.slots@[k].entry) is Some,
            ensures
                *self == *old(self),
                have_slot ==> idx < self.slots@.len() && self.slots@[idx as int].entry is None,
                !have_slot ==> forall|k: int|
                    0 <= k < self.slots@.len() ==> (#[trigger] self.slots@[k].entry) is Some,
            decreases self.slots@.len() - j,
        {
            if self.slots[j].entry.is_none() {
                idx = j;
                have_slot = true;
                break ;
            }
            j += 1;
        }
        let ghost pre_scan = *self;
        if !have_slot {
            if self.slots.len() >= 0xffff_ffff {
                proof {
                    lemma_count_full(self.slots@);
                }
                return Result::Err(RegistrationError::TableFull);
            }
            idx = self.slots.len();
            self.slots.push(EventSlot { gen: 0, entry: None });
            proof {
                lemma_count_push(old(self).slots@, EventSlot { gen: 0u32, entry: None });
            }
        }
        let g = self.slots[idx].gen;
        let tag: u64 = (g as u64) * TAG_SPAN + (idx as u64);
        proof {
            assert((g as u64) * TAG_SPAN <= 0xffff_ffff_0000_0000u64) by (nonlinear_arith)
                requires
                    g <= 0xffff_ffffu32,
            ;
            assert(tag == tag_of(idx as u32, g));
        }
        let ok = self.mux.add(fd, INTEREST, tag);
        if !ok {
            let mut ev = event;
            let mut h = handler;
            h.on_close(&mut ev);
            match ev.close_fd() {
                Some(f) => {
                    self.mux.delete(f);
                    self.mux.close_fd(f);
                },
                None => {},
            }
            proof {
                assert(self.slots@.len() <= 0xffff_ffff);
                assert forall|id2: EventId| final(self).is_live(id2) == old(self).is_live(
                    id2,
                ) by {
                    if id2.index as int == idx {
                        assert(!final(self).is_live(id2));
                        assert(!old(self).is_live(id2));
                    }
                }
                assert forall|id2: EventId| old(self).is_live(id2) implies self.event_of(id2)
                    == old(self).event_of(id2) && self.deadline_of(id2) == old(self).deadline_of(
                    id2,
                ) by {
                    assert(self.slots@[id2.index as int] == old(self).slots@[id2.index as int]);
                }
            }
            return Result::Err(RegistrationError::MultiplexerRefused);
        }
        let mut ev = event;
        ev.reg = true;
        let timer: Option<usize> = if timeout > 0 {
            let t = self.wheel.link(self.now + timeout, tag);
            Some(t)
        } else {
            None
        };
        let ghost pre_install = *self;
        self.slots[idx] = EventSlot { gen: g, entry: Some(EventEntry { event: ev, handler, timer }) };
        self.reg_count = Ghost(self.reg_count@ + 1);
        let id = EventId { index: idx as u32, gen: g };
        proof {
            let s_old = pre_install.slots@;
            let s_new = self.slots@;
            assert(s_new == s_old.update(
                idx as int,
                EventSlot { gen: g, entry: Some(EventEntry { event: ev, handler, timer }) },
            ));
            lemma_count_update(
                s_old,
                idx as int,
                EventSlot { gen: g, entry: Some(EventEntry { event: ev, handler, timer }) },
            );
            assert(self.live_events() == old(self).live_events() + 1);
            // the new wheel node, if any, decodes back to the new slot
            assert((tag as int) % (TAG_SPAN as int) == idx as int && (tag as int) / (TAG_SPAN
                as int) == g as int) by (nonlinear_arith)
                requires
                    tag == (g as u64) * TAG_SPAN + (idx as u64),
                    0 <= (idx as u64) < TAG_SPAN,
                    TAG_SPAN == 0x1_0000_0000u64,
            ;
            assert(tag == tag_of(idx as u32, g));
            let w0 = pre_scan.wheel@;
            assert forall|t: int| #[trigger]
                self.wheel@.dom().contains(t) implies {
                let wtag = self.wheel@[t].1 as int;
                let wi = wtag % (TAG_SPAN as int);
                let wg = wtag / (TAG_SPAN as int);
                &&& 0 <= t <= usize::MAX
                &&& wi < self.slots@.len()
                &&& wg <= u32::MAX
                &&& self.slots@[wi as int].gen == wg
                &&& self.slots@[wi as int].entry is Some
                &&& self.slots@[wi as int].entry->Some_0.timer == Some(t as usize)
            } by {
                if timeout > 0 && t == timer->Some_0 as int {
                    assert(self.wheel@[t].1 == tag);
                    assert(self.slots@[idx as int].entry->Some_0.timer == timer);
                } else {
                    assert(w0.dom().contains(t));
                    assert(self.wheel@[t] == w0[t]);
                    let wtag = w0[t].1 as int;
                    let wi = wtag % (TAG_SPAN as int);
                    assert(pre_scan.slots@[wi].entry is Some);
                    assert(wi != idx as int);
                    assert(self.slots@[wi] == pre_scan.slots@[wi]);
                }
            }
            assert forall|i2: int|
                0 <= i2 < self.slots@.len() && (#[trigger] self.slots@[i2].entry) is Some
                    && self.slots@[i2].entry->Some_0.timer is Some implies {
                let t = self.slots@[i2].entry->Some_0.timer->Some_0 as int;
                &&& self.wheel@.dom().contains(t)
                &&& self.wheel@[t].1 == tag_of(i2 as u32, self.slots@[i2].gen)
            } by {
                if i2 != idx as int {
                    assert(self.slots@[i2] == pre_scan.slots@[i2]);
                    let t = self.slots@[i2].entry->Some_0.timer->Some_0 as int;
                    assert(w0.dom().contains(t) && w0[t].1 == tag_of(
                        i2 as u32,
                        pre_scan.slots@[i2].gen,
                    ));
                    assert(self.wheel@.dom().contains(t) && self.wheel@[t] == w0[t]);
                }
            }
            assert forall|id2: EventId| id2 != id implies self.is_live(id2) == old(self).is_live(
                id2,
            ) by {
                if id2.index as int == idx as int {
                    assert(!old(self).is_live(id2));
                    if self.is_live(id2) {
                        assert(id2.gen == g);
                        assert(id2 == id);
                    }
                }
            }
            assert(self.has_fd(fd)) by {
                assert(self.slots@[idx as int].entry is Some
                    && self.slots@[idx as int].entry->Some_0.event.descriptor() == fd);
            }
            // the new deadline, and every other event's, read back exactly
            if timeout > 0 {
                let t = timer->Some_0 as int;
                assert(self.wheel@.dom().contains(t));
                assert(self.wheel@[t].0 == (old(self).now_tick() + timeout) as u64);
                assert(self.deadline_of(id) == Some((old(self).now_tick() + timeout) as u64));
            } else {
                assert(self.deadline_of(id) is None);
            }
            assert forall|id2: EventId| old(self).is_live(id2) implies self.event_of(id2) == old(
                self,
            ).event_of(id2) && self.deadline_of(id2) == old(self).deadline_of(id2) by {
                assert(id2.index as int != idx as int);
                assert(self.slots@[id2.index as int] == pre_scan.slots@[id2.index as int]);
                if pre_scan.slots@[id2.index as int].entry->Some_0.timer is Some {
                    let t2 = pre_scan.slots@[id2.index as int].entry->Some_0.timer->Some_0 as int;
                    assert(w0.dom().contains(t2) && w0[t2].1 == tag_of(
                        id2.index,
                        pre_scan.slots@[id2.index as int].gen,
                    ));
                    assert(self.wheel@.dom().contains(t2) && self.wheel@[t2] == w0[t2]);
                }
            }
            assert(self.wf());
        }
        Result::Ok(id)
    }

    /// The one destruction path: unlinks the event's timer node, runs
    /// `on_close`, then closes the descriptor and retires it from the
    /// multiplexer. Every way an event dies comes through here, so
    /// `on_close` runs exactly once per event.
    fn close_out(mux: &mut M, wheel: &mut TimerWheel<u64>, entry: EventEntry<H>)
        requires
            old(wheel).wf(),
        ensures
            final(wheel).wf(),
            final(wheel).cursor() == old(wheel).cursor(),
            entry.timer is Some ==> final(wheel)@ == old(wheel)@.remove(
                entry.timer->Some_0 as int,
            ),
            entry.timer is None ==> final(wheel)@ == old(wheel)@,
    {
        let EventEntry { event: mut ev, handler: mut h, timer } = entry;
        match timer {
            Some(t) => {
                wheel.unlink(t);
            },
            None => {},
        }
        h.on_close(&mut ev);
        match ev.close_fd() {
            Some(f) => {
                mux.delete(f);
                mux.close_fd(f);
            },
            None => {},
        }
    }

    /// Removes the event `id` names: its multiplexer entry goes, its timer
    /// node is unlinked, `on_close` runs once, and the slot's generation
    /// advances so the identifier goes stale. A no-op when `id` no longer
    /// names a live event, so unregistering twice is harmless.
    pub fn unregister(&mut self, id: EventId)
        requires
            old(self).wf(),
        ensures
            final(self).wf(),
            final(self).now_tick() == old(self).now_tick(),
            final(self).swept_tick() == old(self).swept_tick(),
            final(self).registrations() == old(self).registrations(),
            !final(self).is_live(id),
            final(self).closures() == old(self).closures() + (if old(self).is_live(id) {
                1nat
            } else {
                0nat
            }),
            final(self).live_events() + (if old(self).is_live(id) {
                1nat
            } else {
                0nat
            }) == old(self).live_events(),
            forall|id2: EventId|
                id2 != id ==> final(self).is_live(id2) == old(self).is_live(id2),
            forall|id2: EventId|
                id2 != id && old(self).is_live(id2) ==> (final(self).fd_of(id2) == old(
                    self,
                ).fd_of(id2) && final(self).event_of(id2) == old(self).event_of(id2)
                    && final(self).deadline_of(id2) == old(self).deadline_of(id2)),
    {
        let idx = id.index as usize;
        if idx >= self.slots.len() {
            return;
        }
        if self.slots[idx].gen != id.gen {
            return;
        }
        let taken: Option<EventEntry<H>> = {
            let s: &mut EventSlot<H> = &mut self.slots[idx];
            s.entry.take()
        };
        match taken {
            None => {
                proof {
                    assert(self.slots@ =~= old(self).slots@);
                }
            },
            Some(e) => {
                let ghost e_spec = e;
                let g = id.gen;
                let newg: u32 = if g == 0xffff_ffff {
                    0
                } else {
                    g + 1
                };
                Self::close_out(&mut self.mux, &mut self.wheel, e);
                self.slots[idx] = EventSlot { gen: newg, entry: None };
                self.close_count = Ghost(self.close_count@ + 1);
                proof {
                    let s0 = old(self).slots@;
                    assert(self.slots@ == s0.update(
                        idx as int,
                        EventSlot { gen: newg, entry: None },
                    ));
                    lemma_count_update(s0, idx as int, EventSlot { gen: newg, entry: None });
                    let w0 = old(self).wheel@;
                    // no surviving wheel node references this slot, and the
                    // nodes of other slots survived
                    assert forall|t: int| #[trigger]
                        self.wheel@.dom().contains(t) implies {
                        let wtag = self.wheel@[t].1 as int;
                        let wi = wtag % (TAG_SPAN as int);
                        let wg = wtag / (TAG_SPAN as int);
                        &&& 0 <= t <= usize::MAX
                        &&& wi < self.slots@.len()
                        &&& wg <= u32::MAX
                        &&& self.slots@[wi as int].gen == wg
                        &&& self.slots@[wi as int].entry is Some
                        &&& self.slots@[wi as int].entry->Some_0.timer == Some(t as usize)
                    } by {
                        assert(w0.dom().contains(t));
                        assert(self.wheel@[t] == w0[t]);
                        let wtag = w0[t].1 as int;
                        let wi = wtag % (TAG_SPAN as int);
                        if wi == idx as int {
                            assert(e_spec.timer == Some(t as usize));
                            assert(!self.wheel@.dom().contains(t));
                        } else {
                            assert(self.slots@[wi] == s0[wi]);
                        }
                    }
                    assert forall|i2: int|
                        0 <= i2 < self.slots@.len() && (#[trigger] self.slots@[i2].entry) is Some
                            && self.slots@[i2].entry->Some_0.timer is Some implies {
                        let t = self.slots@[i2].entry->Some_0.timer->Some_0 as int;
                        &&& self.wheel@.dom().contains(t)
                        &&& self.wheel@[t].1 == tag_of(i2 as u32, self.slots@[i2].gen)
                    } by {
                        assert(i2 != idx as int);
                        assert(self.slots@[i2] == s0[i2]);
                        let t = self.slots@[i2].entry->Some_0.timer->Some_0 as int;
                        assert(w0.dom().contains(t) && w0[t].1 == tag_of(i2 as u32, s0[i2].gen));
                        if e_spec.timer is Some && t == e_spec.timer->Some_0 as int {
                            assert(w0[t].1 == tag_of(idx as u32, g));
                            lemma_tag_decode(i2 as u32, s0[i2].gen);
                            lemma_tag_decode(idx as u32, g);
                            assert(false);
                        }
                        assert(self.wheel@.dom().contains(t) && self.wheel@[t] == w0[t]);
                    }
                    assert forall|id2: EventId| id2 != id implies self.is_live(id2) == old(
                        self,
                    ).is_live(id2) by {
                        if id2.index as int == idx as int && old(self).is_live(id2) {
                            assert(id2.gen == g);
                            assert(id2 == id);
                        }
                    }
                    assert forall|id2: EventId| id2 != id && old(self).is_live(id2) implies self
                        .event_of(id2) == old(self).event_of(id2) && self.deadline_of(id2) == old(
                        self,
                    ).deadline_of(id2) by {
                        assert(id2.index as int != idx as int);
                        assert(self.slots@[id2.index as int] == s0[id2.index as int]);
                        if s0[id2.index as int].entry->Some_0.timer is Some {
                            let t2 = s0[id2.index as int].entry->Some_0.timer->Some_0 as int;
                            assert(w0.dom().contains(t2) && w0[t2].1 == tag_of(
                                id2.index,
                                s0[id2.index as int].gen,
                            ));
                            if e_spec.timer is Some && t2 == e_spec.timer->Some_0 as int {
                                assert(w0[t2].1 == tag_of(idx as u32, g));
                                lemma_tag_decode(id2.index, s0[id2.index as int].gen);
                                lemma_tag_decode(idx as u32, g);
                                assert(false);
                            }
                            assert(self.wheel@.dom().contains(t2) && self.wheel@[t2] == w0[t2]);
                        }
                    }
                    assert(self.wf());
                }
            },
        }
    }

    /// Dispatches one readiness record, as the cycle's readiness pass does
    /// for each record the multiplexer reported.
    ///
    /// The record's tag names an event by index and generation; a stale or
    /// unknown tag touches nothing. A terminal condition closes and
    /// destroys the named event, counted exactly once, preempting any
    /// suspension. Otherwise the reported readiness bits are soaked into
    /// the event's flags; a suspended event is left at that, its callbacks
    /// skipped; else `on_ready` runs on the updated event and decides:
    /// either the event stays, keeping its descriptor unless the callback
    /// closed it, or a false return sends it down the same one destruction
    /// path, counted exactly once. Events the record does not name are
    /// untouched.
    pub fn dispatch_record(&mut self, rec: ReadyRecord)
        requires
            old(self).wf(),
        ensures
            final(self).wf(),
            final(self).now_tick() == old(self).now_tick(),
            final(self).swept_tick() == old(self).swept_tick(),
            final(self).registrations() == old(self).registrations(),
            !old(self).is_live(tag_target(rec.tag)) ==> (final(self).closures() == old(
                self,
            ).closures() && (forall|id2: EventId|
                final(self).is_live(id2) == old(self).is_live(id2))),
            old(self).is_live(tag_target(rec.tag)) && rec.flags & TERMINAL != 0 ==> (!final(self).is_live(tag_target(rec.tag)) && final(self).closures() == old(self).closures()
                + 1),
            old(self).is_live(tag_target(rec.tag)) && rec.flags & TERMINAL == 0 && old(
                self,
            ).event_of(tag_target(rec.tag)).wait ==> (final(self).is_live(tag_target(rec.tag))
                && final(self).closures() == old(self).closures() && final(self).event_of(
                tag_target(rec.tag),
            ) == old(self).event_of(tag_target(rec.tag)).with_readiness(rec.flags)),
            old(self).is_live(tag_target(rec.tag)) && rec.flags & TERMINAL == 0 && !old(
                self,
            ).event_of(tag_target(rec.tag)).wait ==> ((final(self).is_live(tag_target(rec.tag))
                && final(self).closures() == old(self).closures() && (final(self).event_of(
                tag_target(rec.tag),
            ).descriptor() == old(self).event_of(tag_target(rec.tag)).descriptor() || final(self).event_of(tag_target(rec.tag)).descriptor() == CLOSED_FD)) || (!final(self).is_live(tag_target(rec.tag)) && final(self).closures() == old(self).closures()
                + 1)),
            forall|id2: EventId|
                id2 != tag_target(rec.tag) ==> final(self).is_live(id2) == old(self).is_live(
                    id2,
                ),
            forall|id2: EventId|
                id2 != tag_target(rec.tag) && old(self).is_live(id2) ==> (final(self).event_of(
                    id2,
                ) == old(self).event_of(id2) && final(self).deadline_of(id2) == old(
                    self,
                ).deadline_of(id2)),
            forall|id2: EventId| #[trigger] final(self).is_live(id2) ==> old(self).is_live(id2),
            forall|id2: EventId| #[trigger]
                final(self).is_live(id2) ==> final(self).deadline_of(id2) == old(
                    self,
                ).deadline_of(id2),
            forall|id2: EventId| #[trigger]
                final(self).is_live(id2) ==> (final(self).fd_of(id2) == old(self).fd_of(id2)
                    || final(self).fd_of(id2) == CLOSED_FD),
    {
        let ridx = (rec.tag % TAG_SPAN) as usize;
        let rg: u32 = (rec.tag / TAG_SPAN) as u32;
        let id = EventId { index: ridx as u32, gen: rg };
        proof {
            assert(rec.tag % TAG_SPAN < TAG_SPAN);
            assert(rec.tag / TAG_SPAN <= 0xffff_ffffu64);
            assert(id == tag_target(rec.tag));
        }
        let mut live_here = false;
        if ridx < self.slots.len() {
            if self.slots[ridx].gen == rg {
                match &self.slots[ridx].entry {
                    Some(_) => {
                        live_here = true;
                    },
                    None => {},
                }
            }
        }
        if !live_here {
            proof {
                assert(!old(self).is_live(id));
            }
            return ;
        }
        if rec.flags & TERMINAL != 0 {
            self.unregister(id);
            return ;
        }
        let ghost pre = *self;
        let taken: Option<EventEntry<H>> = {
            let s: &mut EventSlot<H> = &mut self.slots[ridx];
            s.entry.take()
        };
        let mut e = taken.unwrap();
        if rec.flags & READABLE != 0 {
            e.event.read = true;
        }
        if rec.flags & WRITABLE != 0 {
            e.event.write = true;
        }
        proof {
            assert(e.event == pre.event_of(id).with_readiness(rec.flags));
        }
        let mut keep = true;
        if !e.event.wait {
            keep = e.handler.on_ready(&mut e.event);
        }
        self.slots[ridx] = EventSlot { gen: rg, entry: Some(e) };
        proof {
            let s0 = pre.slots@;
            let slot_new = EventSlot { gen: rg, entry: Some(e) };
            assert(self.slots@ == s0.update(ridx as int, slot_new));
            lemma_count_update(s0, ridx as int, slot_new);
            assert(e.timer == s0[ridx as int].entry->Some_0.timer);
            assert(e.event.descriptor() == s0[ridx as int].entry->Some_0.event.descriptor()
                || e.event.descriptor() == CLOSED_FD);
            assert forall|id2: EventId| #[trigger] self.is_live(id2) == pre.is_live(id2) by {}
            assert(self.wf());
            assert forall|id2: EventId| id2 != id && pre.is_live(id2) implies (self.event_of(id2)
                == pre.event_of(id2) && self.deadline_of(id2) == pre.deadline_of(id2)) by {
                if id2.index as int == ridx as int {
                    assert(id2.gen == rg);
                    assert(id2 == id);
                } else {
                    assert(self.slots@[id2.index as int] == s0[id2.index as int]);
                }
            }
            assert(self.deadline_of(id) == pre.deadline_of(id));
        }
        if !keep {
            self.unregister(id);
        }
    }

    /// One wait/dispatch/expire cycle. Hands back whether the cycle made
    /// it past the wait: a negative wait result is a transient
    /// interruption, reported as no progress with nothing dispatched and
    /// nothing changed, to be retried by the caller.
    ///
    /// Computes the wait budget from the wheel's next deadline with
    /// [`wait_budget`], blocks in the multiplexer — the sole suspension
    /// point — then refreshes the clock and dispatches each readiness
    /// record as [`EventLoop::dispatch_record`] states. The readiness pass
    /// is followed by the timer sweep, and every event whose deadline
    /// elapsed is closed through the same one destruction path.
    ///
    /// Whatever the multiplexer reports and the callbacks decide: no event
    /// appears from nowhere, every destruction is accounted exactly once,
    /// a surviving event keeps its descriptor unless a callback closed it,
    /// and a surviving event's armed deadline stands untouched.
    pub fn run_cycle(&mut self) -> (progressed: bool)
        requires
            old(self).wf(),
        ensures
            final(self).wf(),
            final(self).registrations() == old(self).registrations(),
            final(self).closures() >= old(self).closures(),
            final(self).live_events() + final(self).closures() == old(self).live_events() + old(
                self,
            ).closures(),
            forall|id2: EventId| #[trigger] final(self).is_live(id2) ==> old(self).is_live(id2),
            forall|id2: EventId| #[trigger]
                final(self).is_live(id2) ==> (final(self).fd_of(id2) == old(self).fd_of(id2)
                    || final(self).fd_of(id2) == CLOSED_FD),
            forall|id2: EventId| #[trigger]
                final(self).is_live(id2) ==> final(self).deadline_of(id2) == old(
                    self,
                ).deadline_of(id2),
            !progressed ==> (final(self).closures() == old(self).closures() && final(self).now_tick() == old(self).now_tick() && final(self).swept_tick() == old(self).swept_tick()
                && (forall|id2: EventId|
                final(self).is_live(id2) == old(self).is_live(id2)) && (forall|id2: EventId|
                old(self).is_live(id2) ==> (final(self).event_of(id2) == old(self).event_of(id2)
                    && final(self).deadline_of(id2) == old(self).deadline_of(id2)))),
            progressed ==> final(self).swept_tick() == (if final(self).now_tick() > old(self).swept_tick() {
                final(self).now_tick()
            } else {
                old(self).swept_tick()
            }),
            progressed && final(self).now_tick() > old(self).swept_tick() ==> (forall|id2: EventId|
                final(self).is_live(id2) && final(self).deadline_of(id2) is Some
                    ==> final(self).deadline_of(id2)->Some_0 > final(self).now_tick()),
    {
        let wake = self.wheel.wake_at();
        let tmo: i64 = wait_budget(wake, self.now);
        let n = self.mux.wait(&mut self.ready, MAX_READY, tmo);
        if n < 0 {
            return false;
        }
        self.now = self.mux.now_ticks();
        let mut records: Vec<ReadyRecord> = Vec::new();
        core::mem::swap(&mut records, &mut self.ready);
        let ghost mid = *self;
        let mut i: usize = 0;
        while i < records.len()
            invariant
                self.wf(),
                self.registrations() == mid.registrations(),
                self.closures() >= mid.closures(),
                i <= records@.len(),
                forall|id2: EventId| #[trigger] self.is_live(id2) ==> mid.is_live(id2),
                forall|id2: EventId| #[trigger]
                    self.is_live(id2) ==> (self.fd_of(id2) == mid.fd_of(id2) || self.fd_of(id2)
                        == CLOSED_FD),
                forall|id2: EventId| #[trigger]
                    self.is_live(id2) ==> self.deadline_of(id2) == mid.deadline_of(id2),
                self.swept_tick() == mid.swept_tick(),
            decreases records@.len() - i,
        {
            let rec = records[i];
            self.dispatch_record(rec);
            i += 1;
        }
        let ghost post_ready = *self;
        core::mem::swap(&mut records, &mut self.ready);
        let ghost pre_sweep = *self;
        let fired: Vec<u64> = self.wheel.run(self.now);
        let ghost w_pre = pre_sweep.wheel@;
        let ghost sweep_now = self.now;
        let ghost swept = self.wheel.cursor();
        let ghost ids_w: Seq<int> = if fired@.len() > 0 {
            choose|ids_w: Seq<int>| fired_in_order(w_pre, sweep_now, ids_w, fired@)
        } else {
            Seq::empty()
        };
        proof {
            if fired@.len() > 0 {
                assert(sweep_now > pre_sweep.wheel.cursor());
                assert(fired_in_order(w_pre, sweep_now, ids_w, fired@));
            }
            assert(mid.slots@ == old(self).slots@);
            assert(self.slots@ == post_ready.slots@);
            assert forall|id2: EventId| #[trigger] self.is_live(id2) implies old(self).is_live(
                id2,
            ) by {
                assert(post_ready.is_live(id2));
                assert(mid.is_live(id2));
            }
            assert forall|id2: EventId| #[trigger]
                self.is_live(id2) implies (self.fd_of(id2) == old(self).fd_of(id2) || self.fd_of(
                id2,
            ) == CLOSED_FD) by {
                assert(post_ready.is_live(id2));
                assert(mid.is_live(id2));
                assert(self.fd_of(id2) == post_ready.fd_of(id2));
                assert(mid.fd_of(id2) == old(self).fd_of(id2));
            }
        }
        let mut k: usize = 0;
        while k < fired.len()
            invariant
                // static facts about the sweep
                pre_sweep.wf(),
                w_pre == pre_sweep.wheel@,
                sweep_now == self.now,
                self.wheel.cursor() == swept,
                swept == (if sweep_now > pre_sweep.wheel.cursor() {
                    sweep_now
                } else {
                    pre_sweep.wheel.cursor()
                }),
                fired@.len() > 0 ==> fired_in_order(w_pre, sweep_now, ids_w, fired@),
                k <= fired@.len(),
                // the pieces of wf other than the timer back-link clause
                self.wheel.wf(),
                self.slots@.len() == pre_sweep.slots@.len(),
                self.slots@.len() <= 0xffff_ffff,
                (forall|i2: int, j2: int|
                    0 <= i2 < self.slots@.len() && 0 <= j2 < self.slots@.len() && i2 != j2 && (
                    #[trigger] self.slots@[i2].entry) is Some && (
                    #[trigger] self.slots@[j2].entry) is Some
                        && self.slots@[i2].entry->Some_0.event.descriptor() >= 0
                        ==> self.slots@[i2].entry->Some_0.event.descriptor()
                        != self.slots@[j2].entry->Some_0.event.descriptor()),
                (forall|t: int| #[trigger]
                    self.wheel@.dom().contains(t) ==> {
                        let wtag = self.wheel@[t].1 as int;
                        let wi = wtag % (TAG_SPAN as int);
                        let wg = wtag / (TAG_SPAN as int);
                        &&& 0 <= t <= usize::MAX
                        &&& wi < self.slots@.len()
                        &&& wg <= u32::MAX
                        &&& self.slots@[wi as int].gen == wg
                        &&& self.slots@[wi as int].entry is Some
                        &&& self.slots@[wi as int].entry->Some_0.timer == Some(t as usize)
                    }),
                self.live_events() + self.close_count@ == self.reg_count@,
                // surviving wheel nodes come from before the sweep, and no
                // node that fired is still linked
                (forall|t: int| #[trigger]
                    self.wheel@.dom().contains(t) ==> w_pre.dom().contains(t) && self.wheel@[t]
                        == w_pre[t]),
                fired@.len() > 0 ==> (forall|t: int| #[trigger]
                    self.wheel@.dom().contains(t) ==> !due_ids(w_pre, sweep_now).contains(t)),
                // a live event's timer node is either linked and its own, or
                // it fired and its closure is still pending in the suffix
                (forall|i2: int|
                    0 <= i2 < self.slots@.len() && (#[trigger] self.slots@[i2].entry) is Some
                        && self.slots@[i2].entry->Some_0.timer is Some ==> {
                        let t = self.slots@[i2].entry->Some_0.timer->Some_0 as int;
                        let g2 = self.slots@[i2].gen;
                        ||| (self.wheel@.dom().contains(t) && self.wheel@[t].1 == tag_of(
                            i2 as u32,
                            g2,
                        ))
                        ||| (exists|j: int|
                            k <= j < ids_w.len() && ids_w[j] == t && w_pre.dom().contains(t)
                                && w_pre[t].1 == tag_of(i2 as u32, g2))
                    }),
                // live slots are untouched since the sweep began
                (forall|i2: int|
                    0 <= i2 < self.slots@.len() && (#[trigger] self.slots@[i2].entry) is Some
                        ==> self.slots@[i2] == pre_sweep.slots@[i2]),
                // bookkeeping and frames for the cycle's contract
                self.reg_count@ == old(self).registrations(),
                self.close_count@ >= old(self).closures(),
                forall|id2: EventId| #[trigger] self.is_live(id2) ==> old(self).is_live(id2),
                forall|id2: EventId| #[trigger]
                    self.is_live(id2) ==> (self.fd_of(id2) == old(self).fd_of(id2) || self.fd_of(
                        id2,
                    ) == CLOSED_FD),
            decreases fired@.len() - k,
        {
            let tag64 = fired[k];
            let ridx = (tag64 % TAG_SPAN) as usize;
            let rg: u32 = (tag64 / TAG_SPAN) as u32;
            let ghost pre = *self;
            let mut live_here = false;
            if ridx < self.slots.len() {
                if self.slots[ridx].gen == rg {
                    match &self.slots[ridx].entry {
                        Some(_) => {
                            live_here = true;
                        },
                        None => {},
                    }
                }
            }
            if live_here {
                let taken: Option<EventEntry<H>> = {
                    let s: &mut EventSlot<H> = &mut self.slots[ridx];
                    s.entry.take()
                };
                let e = taken.unwrap();
                let ghost e_spec = e;
                proof {
                    // this event's node is exactly the one that fired at
                    // position k, so it is no longer linked
                    let t_k = ids_w[k as int];
                    assert(due_ids(w_pre, sweep_now).contains(t_k)) by {
                        assert(ids_w.to_set().contains(t_k));
                    }
                    assert(w_pre.dom().contains(t_k));
                    assert(fired@[k as int] == w_pre[t_k].1);
                    assert((w_pre[t_k].1 as int) % (TAG_SPAN as int) == ridx as int && (
                    w_pre[t_k].1 as int) / (TAG_SPAN as int) == rg as int);
                    assert(pre_sweep.slots@[ridx as int].entry->Some_0.timer == Some(
                        t_k as usize,
                    ));
                    assert(pre.slots@[ridx as int] == pre_sweep.slots@[ridx as int]);
                    assert(e_spec.timer == Some(t_k as usize));
                    assert(!self.wheel@.dom().contains(t_k));
                }
                let newg: u32 = if rg == 0xffff_ffff {
                    0
                } else {
                    rg + 1
                };
                Self::close_out(&mut self.mux, &mut self.wheel, e);
                self.slots[ridx] = EventSlot { gen: newg, entry: None };
                self.close_count = Ghost(self.close_count@ + 1);
                proof {
                    let t_k = ids_w[k as int];
                    assert(self.wheel@ =~= pre.wheel@);
                    let s0 = pre.slots@;
                    assert(self.slots@ == s0.update(
                        ridx as int,
                        EventSlot { gen: newg, entry: None },
                    ));
                    lemma_count_update(s0, ridx as int, EventSlot { gen: newg, entry: None });
                    // no linked node still points at the closed slot
                    assert forall|t: int| #[trigger]
                        self.wheel@.dom().contains(t) implies {
                        let wtag = self.wheel@[t].1 as int;
                        let wi = wtag % (TAG_SPAN as int);
                        &&& wi < self.slots@.len()
                        &&& self.slots@[wi as int].gen == wtag / (TAG_SPAN as int)
                        &&& self.slots@[wi as int].entry is Some
                        &&& self.slots@[wi as int].entry->Some_0.timer == Some(t as usize)
                    } by {
                        let wtag = pre.wheel@[t].1 as int;
                        let wi = wtag % (TAG_SPAN as int);
                        if wi == ridx as int {
                            assert(pre.slots@[wi].entry->Some_0.timer == Some(t as usize));
                            assert(e_spec.timer == Some(t as usize));
                            assert(t == t_k);
                            assert(!pre.wheel@.dom().contains(t));
                        } else {
                            assert(self.slots@[wi] == s0[wi]);
                        }
                    }
                    // pending-closure suffix advances: any other live event
                    // still finds its witness beyond k
                    assert forall|i2: int|
                        0 <= i2 < self.slots@.len() && (#[trigger] self.slots@[i2].entry) is Some
                            && self.slots@[i2].entry->Some_0.timer is Some implies {
                        let t = self.slots@[i2].entry->Some_0.timer->Some_0 as int;
                        let g2 = self.slots@[i2].gen;
                        ||| (self.wheel@.dom().contains(t) && self.wheel@[t].1 == tag_of(
                            i2 as u32,
                            g2,
                        ))
                        ||| (exists|j: int|
                            k + 1 <= j < ids_w.len() && ids_w[j] == t && w_pre.dom().contains(t)
                                && w_pre[t].1 == tag_of(i2 as u32, g2))
                    } by {
                        assert(i2 != ridx as int);
                        assert(self.slots@[i2] == s0[i2]);
                        let t = s0[i2].entry->Some_0.timer->Some_0 as int;
                        let g2 = s0[i2].gen;
                        if !(self.wheel@.dom().contains(t) && self.wheel@[t].1 == tag_of(
                            i2 as u32,
                            g2,
                        )) {
                            let j = choose|j: int|
                                k <= j < ids_w.len() && ids_w[j] == t && w_pre.dom().contains(t)
                                    && w_pre[t].1 == tag_of(i2 as u32, g2);
                            if j == k {
                                lemma_tag_decode(i2 as u32, g2);
                                lemma_tag_decode(ridx as u32, rg);
                                assert(w_pre[t].1 == w_pre[t_k].1);
                                assert(false);
                            }
                        }
                    }
                    assert forall|id2: EventId| #[trigger]
                        self.is_live(id2) implies old(self).is_live(id2) by {
                        if id2.index as int == ridx as int {
                            assert(!self.is_live(id2));
                        } else {
                            assert(pre.is_live(id2));
                        }
                    }
                    assert forall|id2: EventId| #[trigger]
                        self.is_live(id2) implies (self.fd_of(id2) == old(self).fd_of(id2)
                        || self.fd_of(id2) == CLOSED_FD) by {
                        assert(id2.index as int != ridx as int);
                        assert(self.slots@[id2.index as int] == s0[id2.index as int]);
                        assert(pre.is_live(id2) && self.fd_of(id2) == pre.fd_of(id2));
                    }
                }
            } else {
                proof {
                    // a stale tag: nothing changes, and no live event's
                    // pending witness sat at position k
                    assert forall|i2: int|
                        0 <= i2 < self.slots@.len() && (#[trigger] self.slots@[i2].entry) is Some
                            && self.slots@[i2].entry->Some_0.timer is Some implies {
                        let t = self.slots@[i2].entry->Some_0.timer->Some_0 as int;
                        let g2 = self.slots@[i2].gen;
                        ||| (self.wheel@.dom().contains(t) && self.wheel@[t].1 == tag_of(
                            i2 as u32,
                            g2,
                        ))
                        ||| (exists|j: int|
                            k + 1 <= j < ids_w.len() && ids_w[j] == t && w_pre.dom().contains(t)
                                && w_pre[t].1 == tag_of(i2 as u32, g2))
                    } by {
                        let t = self.slots@[i2].entry->Some_0.timer->Some_0 as int;
                        let g2 = self.slots@[i2].gen;
                        if !(self.wheel@.dom().contains(t) && self.wheel@[t].1 == tag_of(
                            i2 as u32,
                            g2,
                        )) {
                            let j = choose|j: int|
                                k <= j < ids_w.len() && ids_w[j] == t && w_pre.dom().contains(t)
                                    && w_pre[t].1 == tag_of(i2 as u32, g2);
                            if j == k {
                                let t_k = ids_w[k as int];
                                assert(fired@[k as int] == w_pre[t_k].1);
                                lemma_tag_decode(i2 as u32, g2);
                                assert(i2 == ridx as int && g2 == rg);
                                assert(self.slots@[i2] == pre_sweep.slots@[i2]);
                                assert(false);
                            }
                        }
                    }
                }
            }
            k += 1;
        }
        proof {
            assert(self.wf());
            assert forall|id2: EventId| #[trigger] self.is_live(id2) implies self.deadline_of(
                id2,
            ) == old(self).deadline_of(id2) by {
                // the slot survived the sweep untouched, so it was live all
                // along; chain the deadline back through the passes
                assert(self.slots@[id2.index as int] == pre_sweep.slots@[id2.index as int]);
                assert(pre_sweep.is_live(id2));
                assert(pre_sweep.slots@ == post_ready.slots@ && pre_sweep.wheel@
                    == post_ready.wheel@);
                assert(pre_sweep.deadline_of(id2) == post_ready.deadline_of(id2));
                assert(post_ready.is_live(id2));
                assert(post_ready.deadline_of(id2) == mid.deadline_of(id2));
                assert(mid.slots@ == old(self).slots@ && mid.wheel@ == old(self).wheel@);
                assert(mid.deadline_of(id2) == old(self).deadline_of(id2));
                if pre_sweep.slots@[id2.index as int].entry->Some_0.timer is Some {
                    let t = pre_sweep.slots@[id2.index as int].entry->Some_0.timer->Some_0 as int;
                    assert(w_pre.dom().contains(t) && w_pre[t].1 == tag_of(
                        id2.index,
                        pre_sweep.slots@[id2.index as int].gen,
                    ));
                    assert(self.wheel@.dom().contains(t));
                    assert(self.wheel@[t] == w_pre[t]);
                    assert(self.deadline_of(id2) == pre_sweep.deadline_of(id2));
                } else {
                    assert(self.deadline_of(id2) is None && pre_sweep.deadline_of(id2) is None);
                }
            }
            assert(pre_sweep.wheel.cursor() == old(self).swept_tick());
            assert(self.swept_tick() == (if self.now_tick() > old(self).swept_tick() {
                self.now_tick()
            } else {
                old(self).swept_tick()
            }));
            if sweep_now > pre_sweep.wheel.cursor() {
                // a cycle that advanced the sweep leaves no elapsed deadline
                if fired@.len() == 0 {
                    let idsw = choose|i: Seq<int>|
                        fired_in_order(w_pre, sweep_now, i, fired@);
                    assert(fired_in_order(w_pre, sweep_now, idsw, fired@));
                    assert(idsw.to_set() =~= Set::<int>::empty());
                    assert(due_ids(w_pre, sweep_now) =~= Set::<int>::empty());
                }
                assert forall|id2: EventId|
                    self.is_live(id2) && self.deadline_of(id2) is Some implies self.deadline_of(
                    id2,
                )->Some_0 > sweep_now by {
                    let t = self.slots@[id2.index as int].entry->Some_0.timer->Some_0 as int;
                    assert(self.wheel@.dom().contains(t));
                    assert(self.wheel@[t] == w_pre[t]);
                    assert(!due_ids(w_pre, sweep_now).contains(t));
                    assert(w_pre[t].0 > sweep_now);
                }
            }
        }
        true
    }

    /// The number of live events, counted from the table.
    pub fn live_count(&self) -> (n: usize)
        ensures
            n == self.live_events(),
    {
        let mut n: usize = 0;
        let mut i: usize = 0;
        while i < self.slots.len()
            invariant
                i <= self.slots@.len(),
                n <= i,
                n == count_live(self.slots@.subrange(0, i as int)),
            decreases self.slots@.len() - i,
        {
            let ghost prefix = self.slots@.subrange(0, i as int);
            match &self.slots[i].entry {
                Some(_) => {
                    n += 1;
                },
                None => {},
            }
            i += 1;
            proof {
                let prefix2 = self.slots@.subrange(0, i as int);
                assert(prefix2.drop_last() =~= prefix);
                assert(prefix2.last() == self.slots@[i - 1]);
            }
        }
        proof {
            assert(self.slots@.subrange(0, self.slots@.len() as int) =~= self.slots@);
        }
        n
    }

    /// A look at the multiplexer capability the loop owns.
    pub fn multiplexer(&self) -> &M {
        &self.mux
    }

    /// Drives wait/dispatch/expire cycles back to back. The design leaves
    /// `run`'s shutdown rule open, so this driver takes a cycle budget and
    /// hands control back once it is spent; a caller chooses its own stop
    /// rule by deciding whether to call again.
    pub fn run(&mut self, max_cycles: u64)
        requires
            old(self).wf(),
        ensures
            final(self).wf(),
            final(self).registrations() == old(self).registrations(),
            final(self).closures() >= old(self).closures(),
            final(self).live_events() + final(self).closures() == old(self).live_events() + old(
                self,
            ).closures(),
            forall|id2: EventId| #[trigger] final(self).is_live(id2) ==> old(self).is_live(id2),
            forall|id2: EventId| #[trigger]
                final(self).is_live(id2) ==> (final(self).fd_of(id2) == old(self).fd_of(id2)
                    || final(self).fd_of(id2) == CLOSED_FD),
            forall|id2: EventId| #[trigger]
                final(self).is_live(id2) ==> final(self).deadline_of(id2) == old(
                    self,
                ).deadline_of(id2),
    {
        let mut c: u64 = 0;
        while c < max_cycles
            invariant
                self.wf(),
                self.registrations() == old(self).registrations(),
                self.closures() >= old(self).closures(),
                forall|id2: EventId| #[trigger] self.is_live(id2) ==> old(self).is_live(id2),
                forall|id2: EventId| #[trigger]
                    self.is_live(id2) ==> (self.fd_of(id2) == old(self).fd_of(id2) || self.fd_of(
                        id2,
                    ) == CLOSED_FD),
                forall|id2: EventId| #[trigger]
                    self.is_live(id2) ==> self.deadline_of(id2) == old(self).deadline_of(id2),
            decreases max_cycles - c,
        {
            self.run_cycle();
            c += 1;
        }
    }
}

impl<M: Multiplexer, H: EventHandler> EventLoopHandle<H> for EventLoop<M, H> {
    open spec fn handle_inv(&self) -> bool {
        self.wf()
    }

    open spec fn live_of(&self) -> nat {
        self.live_events()
    }

    open spec fn registrations_of(&self) -> nat {
        self.registrations()
    }

    open spec fn closures_of(&self) -> nat {
        self.closures()
    }

    fn run(&mut self, max_cycles: u64) {
        EventLoop::run(self, max_cycles)
    }

    fn register(&mut self, event: Event, handler: H, timeout: u64) -> Result<
        EventId,
        RegistrationError,
    > {
        EventLoop::register(self, event, handler, timeout)
    }

    fn unregister(&mut self, id: EventId) {
        EventLoop::unregister(self, id)
    }
}

} // verus!
