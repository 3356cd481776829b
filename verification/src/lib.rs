//! A single-threaded I/O reactor core: an event loop that multiplexes
//! readiness notifications across registered descriptors, dispatches
//! per-descriptor callbacks, and manages per-connection timeouts through a
//! timer wheel.
//!
//! The operating-system facilities (the readiness multiplexer, sockets and
//! the clock) are reached through capability traits; everything behind those
//! traits is ordinary verified logic on plain values.

use vstd::prelude::*;

pub mod event;
pub mod event_loop;
pub mod listener;
pub mod timer_wheel;

verus! {

/// The absolute tick value reserved as the "no timers pending" sentinel.
pub const NO_TIMERS: u64 = 0xffff_ffff_ffff_ffff;

} // verus!
