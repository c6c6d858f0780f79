//! The life of one connection, as a state machine.
//!
//! The program around the library does the outside work (it reads, writes
//! and closes the socket, and awaits handlers) and reports what came of it as
//! an `Event`. `step` decides what state the connection is in then and what
//! is to be done next. Every failure ends the connection, and every
//! connection is closed exactly once.

use vstd::prelude::*;

verus! {

/// Where a connection stands.
#[derive(Clone, Copy, Debug, PartialEq, Eq)]
pub enum Phase {
    Accepted,
    Reading,
    Parsed,
    Dispatching,
    Writing,
    Closed,
}

/// What came of the work that was asked for.
#[derive(Clone, Copy, Debug, PartialEq, Eq)]
pub enum Event {
    /// The connection was accepted.
    Opened,
    /// The single read of the socket gave its bytes.
    Data,
    /// The bytes were decoded into a request.
    Decoded,
    /// The response text is there: a handler's, or a fixed reply.
    Answered,
    /// The response was written.
    Written,
    /// The work failed.
    Failed,
}

/// What is to be done next.
#[derive(Clone, Copy, Debug, PartialEq, Eq)]
pub enum Action {
    /// Read the socket once, into a buffer of `READ_LIMIT` bytes.
    Read,
    /// Decode the bytes that were read.
    Decode,
    /// Find the handler and get its response, or the fixed reply.
    Dispatch,
    /// Write the response.
    Write,
    /// Flush the socket and close it.
    Close,
    /// Nothing: the connection is closed.
    Nothing,
}

/// The size of the buffer that the single read fills.
pub const READ_LIMIT: usize = 4096;

/// How far a connection has come.
pub open spec fn rank(phase: Phase) -> int {
    match phase {
        Phase::Accepted => 0,
        Phase::Reading => 1,
        Phase::Parsed => 2,
        Phase::Dispatching => 3,
        Phase::Writing => 4,
        Phase::Closed => 5,
    }
}

/// The state after an event, and the work to do then. Each state expects one
/// event and moves on to the next state; any other event, a failure among
/// them, closes the connection. A closed connection stays closed.
pub open spec fn next(phase: Phase, event: Event) -> (Phase, Action) {
    match (phase, event) {
        (Phase::Closed, _) => (Phase::Closed, Action::Nothing),
        (Phase::Accepted, Event::Opened) => (Phase::Reading, Action::Read),
        (Phase::Reading, Event::Data) => (Phase::Parsed, Action::Decode),
        (Phase::Parsed, Event::Decoded) => (Phase::Dispatching, Action::Dispatch),
        (Phase::Dispatching, Event::Answered) => (Phase::Writing, Action::Write),
        (Phase::Writing, Event::Written) => (Phase::Closed, Action::Close),
        _ => (Phase::Closed, Action::Close),
    }
}

/// Computes `next`.
pub fn step(phase: Phase, event: Event) -> (r: (Phase, Action))
    ensures
        r == next(phase, event),
{
    match phase {
        Phase::Closed => (Phase::Closed, Action::Nothing),
        Phase::Accepted => match event {
            Event::Opened => (Phase::Reading, Action::Read),
            _ => (Phase::Closed, Action::Close),
        },
        Phase::Reading => match event {
            Event::Data => (Phase::Parsed, Action::Decode),
            _ => (Phase::Closed, Action::Close),
        },
        Phase::Parsed => match event {
            Event::Decoded => (Phase::Dispatching, Action::Dispatch),
            _ => (Phase::Closed, Action::Close),
        },
        Phase::Dispatching => match event {
            Event::Answered => (Phase::Writing, Action::Write),
            _ => (Phase::Closed, Action::Close),
        },
        Phase::Writing => match event {
            Event::Written => (Phase::Closed, Action::Close),
            _ => (Phase::Closed, Action::Close),
        },
    }
}

/// The state after a sequence of events.
pub open spec fn run(phase: Phase, events: Seq<Event>) -> Phase
    decreases events.len(),
{
    if events.len() == 0 {
        phase
    } else {
        run(next(phase, events[0]).0, events.drop_first())
    }
}

/// How often a sequence of events has the socket closed.
pub open spec fn closes(phase: Phase, events: Seq<Event>) -> nat
    decreases events.len(),
{
    if events.len() == 0 {
        0
    } else {
        let after = next(phase, events[0]);
        (if after.1 == Action::Close {
            1nat
        } else {
            0nat
        }) + closes(after.0, events.drop_first())
    }
}

/// Every event moves an open connection on: there is no retry and no way
/// back.
pub proof fn lemma_progress(phase: Phase, event: Event)
    requires
        phase != Phase::Closed,
    ensures
        rank(next(phase, event).0) > rank(phase),
{
}

/// A failure closes an open connection, whatever state it is in.
pub proof fn lemma_failure_closes(phase: Phase)
    requires
        phase != Phase::Closed,
    ensures
        next(phase, Event::Failed) == (Phase::Closed, Action::Close),
{
}

/// The socket is closed exactly on the step that ends the connection.
pub proof fn lemma_close_on_ending(phase: Phase, event: Event)
    ensures
        next(phase, event).1 == Action::Close <==> (phase != Phase::Closed && next(
            phase,
            event,
        ).0 == Phase::Closed),
{
}

/// Five events, whatever they are, end a connection.
pub proof fn lemma_ends_within_five(phase: Phase, events: Seq<Event>)
    requires
        events.len() >= 5 - rank(phase),
    ensures
        run(phase, events) == Phase::Closed,
    decreases events.len(),
{
    if events.len() > 0 {
        lemma_ends_within_five(next(phase, events[0]).0, events.drop_first());
    }
}

/// A connection that has ended was closed exactly once, and one that has not
/// ended was not closed.
pub proof fn lemma_closed_once(phase: Phase, events: Seq<Event>)
    requires
        phase != Phase::Closed,
    ensures
        closes(phase, events) == (if run(phase, events) == Phase::Closed {
            1nat
        } else {
            0nat
        }),
    decreases events.len(),
{
    if events.len() > 0 {
        let after = next(phase, events[0]);
        if after.0 == Phase::Closed {
            lemma_stays_closed(events.drop_first());
        } else {
            lemma_closed_once(after.0, events.drop_first());
        }
    }
}

/// A closed connection stays closed, and nothing more is done for it.
pub proof fn lemma_stays_closed(events: Seq<Event>)
    ensures
        run(Phase::Closed, events) == Phase::Closed,
        closes(Phase::Closed, events) == 0,
    decreases events.len(),
{
    if events.len() > 0 {
        lemma_stays_closed(events.drop_first());
    }
}

/// The events of a connection on which nothing fails lead through every
/// state in order.
pub proof fn lemma_successful_run()
    ensures
        next(Phase::Accepted, Event::Opened) == (Phase::Reading, Action::Read),
        next(Phase::Reading, Event::Data) == (Phase::Parsed, Action::Decode),
        next(Phase::Parsed, Event::Decoded) == (Phase::Dispatching, Action::Dispatch),
        next(Phase::Dispatching, Event::Answered) == (Phase::Writing, Action::Write),
        next(Phase::Writing, Event::Written) == (Phase::Closed, Action::Close),
{
}

} // verus!
