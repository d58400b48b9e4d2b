//! Requests, events and the total order in which the engine processes them.

use vstd::prelude::*;

verus! {

/// One synthetic request: a 1-based id and the instant at which it arrives.
#[derive(Clone, Copy, Debug, PartialEq, Eq, Structural)]
pub struct Request {
    pub id: usize,
    pub arrival_time_ms: u64,
}

/// What happens at a scheduled instant.
#[derive(Clone, Copy, Debug, PartialEq, Eq, Structural)]
pub enum Event {
    /// A request reaches the balancer and must be routed.
    RequestArrival(Request),
    /// A server finishes a request and frees one connection.
    RequestComplete { server_id: usize, request_id: usize },
}

/// An event together with the simulated time at which it fires.
#[derive(Clone, Copy, Debug, PartialEq, Eq, Structural)]
pub struct ScheduledEvent {
    pub time_ms: u64,
    pub event: Event,
}

impl Event {
    /// Rank of the event kind: completions (0) come before arrivals (1).
    pub open spec fn priority_rank(self) -> int {
        match self {
            Event::RequestComplete { .. } => 0,
            Event::RequestArrival(_) => 1,
        }
    }

    /// The event's own id: the server for a completion, the request for an arrival.
    pub open spec fn tiebreak_id(self) -> int {
        match self {
            Event::RequestComplete { server_id, .. } => server_id as int,
            Event::RequestArrival(request) => request.id as int,
        }
    }

    /// The field that the first three keys leave out, so that two events
    /// with equal keys are the same event.
    pub open spec fn residual_id(self) -> int {
        match self {
            Event::RequestComplete { request_id, .. } => request_id as int,
            Event::RequestArrival(request) => request.arrival_time_ms as int,
        }
    }

    pub fn priority(&self) -> (p: u8)
        ensures
            p as int == self.priority_rank(),
    {
        match self {
            Event::RequestComplete { .. } => 0,
            Event::RequestArrival(_) => 1,
        }
    }

    pub fn tiebreaker(&self) -> (t: usize)
        ensures
            t as int == self.tiebreak_id(),
    {
        match self {
            Event::RequestComplete { server_id, .. } => *server_id,
            Event::RequestArrival(request) => request.id,
        }
    }

    fn residual(&self) -> (r: u64)
        ensures
            r as int == self.residual_id(),
    {
        match self {
            Event::RequestComplete { request_id, .. } => *request_id as u64,
            Event::RequestArrival(request) => request.arrival_time_ms,
        }
    }
}

impl ScheduledEvent {
    pub fn new(time_ms: u64, event: Event) -> (scheduled: Self)
        ensures
            scheduled == (ScheduledEvent { time_ms, event }),
    {
        ScheduledEvent { time_ms, event }
    }

    /// Strict processing order: earlier time first; at equal time completions
    /// before arrivals; then by the event's own id; then by the remaining field.
    pub open spec fn before(self, other: Self) -> bool {
        let a = self.event;
        let b = other.event;
        ||| self.time_ms < other.time_ms
        ||| self.time_ms == other.time_ms && a.priority_rank() < b.priority_rank()
        ||| self.time_ms == other.time_ms && a.priority_rank() == b.priority_rank()
            && a.tiebreak_id() < b.tiebreak_id()
        ||| self.time_ms == other.time_ms && a.priority_rank() == b.priority_rank()
            && a.tiebreak_id() == b.tiebreak_id() && a.residual_id() < b.residual_id()
    }

    /// `self` is processed no later than `other`.
    pub open spec fn not_after(self, other: Self) -> bool {
        self == other || self.before(other)
    }

    /// Decides `before`.
    pub fn precedes(&self, other: &Self) -> (b: bool)
        ensures
            b == self.before(*other),
    {
        if self.time_ms != other.time_ms {
            return self.time_ms < other.time_ms;
        }
        let pa: u8 = self.event.priority();
        let pb: u8 = other.event.priority();
        if pa != pb {
            return pa < pb;
        }
        let ta: usize = self.event.tiebreaker();
        let tb: usize = other.event.tiebreaker();
        if ta != tb {
            return ta < tb;
        }
        self.event.residual() < other.event.residual()
    }
}

/// `before` is a strict total order on scheduled events: no event precedes
/// itself, precedence is transitive, and of two different events exactly one
/// precedes the other.
pub proof fn lemma_before_is_strict_total_order(a: ScheduledEvent, b: ScheduledEvent, c: ScheduledEvent)
    ensures
        !a.before(a),
        a.before(b) && b.before(c) ==> a.before(c),
        a != b ==> (a.before(b) || b.before(a)),
        !(a.before(b) && b.before(a)),
{
}

} // verus!
