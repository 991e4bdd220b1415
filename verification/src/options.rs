//! Per-request options: the scheduling deadline and the optional admission
//! bound on a device's pending-request queue.

use vstd::prelude::*;

verus! {

/// A span of time: whole seconds plus a sub-second remainder in nanoseconds.
#[derive(Debug, Clone, Copy, PartialEq, Eq, Structural)]
pub struct Duration {
    /// The whole-second part.
    pub secs: u64,
    /// The sub-second part, in nanoseconds.
    pub nanos: u32,
}

impl Duration {
    /// The sub-second part never reaches a full second.
    pub open spec fn wf(&self) -> bool {
        self.nanos < 1_000_000_000
    }

    /// Creates a duration of `secs` seconds and `nanos` nanoseconds.
    pub fn new(secs: u64, nanos: u32) -> (r: Self)
        requires
            nanos < 1_000_000_000,
        ensures
            r == (Duration { secs, nanos }),
            r.wf(),
    {
        Duration { secs, nanos }
    }

    /// Creates a duration of whole seconds.
    pub fn from_secs(secs: u64) -> (r: Self)
        ensures
            r == (Duration { secs, nanos: 0u32 }),
            r.wf(),
    {
        Duration { secs, nanos: 0 }
    }

    /// Creates a duration of milliseconds.
    pub fn from_millis(millis: u64) -> (r: Self)
        ensures
            r == (Duration { secs: (millis / 1000) as u64, nanos: ((millis % 1000) * 1_000_000) as u32 }),
            r.wf(),
    {
        Duration { secs: millis / 1000, nanos: (millis % 1000) as u32 * 1_000_000 }
    }
}

/// When a request would like to be scheduled, relative to other requests on
/// the same device.  A priority hint, not a wall-clock timeout.
#[derive(Debug, Clone, Copy, PartialEq, Eq, Structural)]
pub enum Deadline {
    /// Handle as soon as possible; ahead of every `Within`.
    Immediate,
    /// Handle within the given span.
    Within(Duration),
    /// Handle whenever convenient (the default).
    Infinity,
}

impl Deadline {
    /// Any carried duration is well formed.
    pub open spec fn wf(&self) -> bool {
        match *self {
            Deadline::Within(d) => d.wf(),
            _ => true,
        }
    }
}

impl Default for Deadline {
    /// The default deadline: no urgency at all.
    fn default() -> (r: Self)
        ensures
            r == Deadline::Infinity,
    {
        Deadline::Infinity
    }
}

/// Options carried by every request: the deadline, and an optional bound on
/// the target device's pending-request queue.  If the queue is longer than
/// the bound when the request arrives, the device rejects it as busy rather
/// than queue it.
#[derive(Debug, Clone, Copy, PartialEq, Eq, Structural)]
pub struct RequestOptions {
    /// Scheduling priority hint.
    pub deadline: Deadline,
    /// Largest pending-queue length the request tolerates; `None` is no
    /// limit.
    pub max_queue_len: Option<usize>,
}

impl RequestOptions {
    /// Any carried duration is well formed.
    pub open spec fn wf(&self) -> bool {
        self.deadline.wf()
    }

    /// The queue-length bound as it travels on the wire: `None` as `0`,
    /// `Some(n)` as `n + 1`, so that "no limit" and "limit zero" stay apart.
    pub open spec fn spec_queue_len_wire(&self) -> int {
        match self.max_queue_len {
            None => 0,
            Some(n) => n + 1,
        }
    }

    /// Whether the queue-length bound fits the wire's 32-bit field.
    pub open spec fn queue_len_encodable(&self) -> bool {
        self.spec_queue_len_wire() <= 0xFFFF_FFFF
    }
}

} // verus!
