//! A one-shot timer service built on a hashed timing wheel.
//!
//! The wheel ([`timewheel::TimeWheel`]) tracks pending expirations in a
//! circular array of buckets: inserting a delay of `d` ticks places an entry
//! in slot `(cursor + d) mod size` with `d / size` rounds remaining, and each
//! tick advances the cursor one slot and fires the entries there whose rounds
//! have run out. On top of it, [`hashed::TimerExecutorImpl`] allocates timer
//! ids, records fired ids until they are consumed by a poll, and keeps at
//! most one registered waker per id. [`hashed::TimerExecutor`] adds the
//! duration-to-tick conversion and hands out [`hashed::Timeout`] handles.
//!
//! Everything here is single-threaded core logic with explicit state
//! transitions; a caller that wants a background driver wraps an executor in
//! a lock, ticks it on a fixed cadence, and invokes the wakers that each tick
//! hands back.

use vstd::prelude::*;

pub mod hashed;
pub mod timewheel;

verus! {

/// A timer service provider: a one-shot waitable handle created from a
/// duration in milliseconds, served by an implicit default executor.
pub trait Timer: Sized {
    /// Create a new timer that fires once, no earlier than `duration_ms`
    /// milliseconds from now rounded up to the serving executor's tick
    /// granularity.
    fn new(duration_ms: u64) -> Self;
}

/// A timer service provider bound to an explicitly supplied executor
/// context, for callers that need isolation or their own wheel
/// configuration.
pub trait TimerWithContext: Timer {
    /// The executor context a timer is created against.
    type Context;

    /// Create a new timer served by `context` rather than the implicit
    /// default executor.
    fn new_with_context(duration_ms: u64, context: &mut Self::Context) -> Self;
}

} // verus!
