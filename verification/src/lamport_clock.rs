//! A scalar logical clock.
//!
//! An event that a node makes or sends is stamped with the next value of its
//! clock; a node that receives a stamp moves its clock past it.  So an event that
//! could have caused another carries the smaller stamp.

use vstd::prelude::*;

verus! {

/// A logical clock: a counter that only moves forward.
#[derive(Debug, PartialEq, Eq)]
pub struct LamportClock {
    time: u64,
}

impl View for LamportClock {
    type V = u64;

    closed spec fn view(&self) -> u64 {
        self.time
    }
}

impl Clone for LamportClock {
    fn clone(&self) -> (copy: Self)
        ensures
            copy@ == self@,
    {
        LamportClock { time: self.time }
    }
}

/// The value of a clock after a local event.
pub open spec fn after_tick(time: u64) -> int {
    time + 1
}

/// The value of a clock after receiving the stamp `received`.
pub open spec fn after_receipt(time: u64, received: u64) -> int {
    if time < received {
        received + 1
    } else {
        time + 1
    }
}

impl LamportClock {
    /// A clock at 0.
    pub fn new() -> (clock: Self)
        ensures
            clock@ == 0,
    {
        LamportClock { time: 0 }
    }

    /// A clock at `time`.
    pub fn at(time: u64) -> (clock: Self)
        ensures
            clock@ == time,
    {
        LamportClock { time }
    }

    /// The current value.
    pub fn time(&self) -> (time: u64)
        ensures
            time == self@,
    {
        self.time
    }

    /// Moves the clock on for a local event or a message to be sent, and returns
    /// the stamp for it.
    pub fn tick(&mut self) -> (stamp: u64)
        requires
            old(self)@ < u64::MAX,
        ensures
            final(self)@ == after_tick(old(self)@),
            final(self)@ == old(self)@ + 1,
            stamp == final(self)@,
    {
        self.time += 1;
        self.time
    }

    /// Moves the clock past its own value and past `received`.
    pub fn update(&mut self, received: u64)
        requires
            old(self)@ < u64::MAX,
            received < u64::MAX,
        ensures
            final(self)@ == after_receipt(old(self)@, received),
            final(self)@ > old(self)@,
            final(self)@ > received,
            final(self)@ == old(self)@ + 1 || final(self)@ == received + 1,
    {
        let latest: u64 = if self.time < received {
            received
        } else {
            self.time
        };
        self.time = latest + 1;
    }
}

impl Default for LamportClock {
    fn default() -> (clock: Self)
        ensures
            clock@ == 0,
    {
        LamportClock::new()
    }
}

/// What happens to a node's clock.
pub enum ClockEvent {
    /// A local event, or a message that is sent.
    Local,
    /// A message with this stamp arrives.
    Receipt(u64),
}

/// The value of a clock after an event.
pub open spec fn after_event(time: u64, event: ClockEvent) -> int {
    match event {
        ClockEvent::Local => after_tick(time),
        ClockEvent::Receipt(received) => after_receipt(time, received),
    }
}

/// The value of a clock after a sequence of events, as long as it does not run
/// out of values.
pub open spec fn after_events(time: u64, events: Seq<ClockEvent>) -> int
    decreases events.len(),
{
    if events.len() == 0 {
        time as int
    } else {
        after_event(after_events(time, events.drop_last()) as u64, events.last())
    }
}

/// The clock stays within its range throughout `events`.
pub open spec fn in_range(time: u64, events: Seq<ClockEvent>) -> bool {
    forall|n: int| 0 <= n <= events.len() ==> after_events(time, #[trigger] events.take(n))
        <= u64::MAX
}

/// Every event moves the clock forward, and a receipt moves it past the stamp
/// that came.
pub proof fn law_events_move_forward(time: u64, event: ClockEvent)
    ensures
        after_event(time, event) > time,
        event matches ClockEvent::Receipt(received) ==> after_event(time, event) > received,
{
}

/// A cause carries a smaller stamp than its effect: of the events at one node the
/// later has the greater stamp.
pub proof fn law_later_events_have_greater_stamps(
    time: u64,
    events: Seq<ClockEvent>,
    earlier: int,
    later: int,
)
    requires
        in_range(time, events),
        0 <= earlier < later <= events.len(),
    ensures
        after_events(time, events.take(earlier)) < after_events(time, events.take(later)),
    decreases later - earlier,
{
    let before = events.take(later - 1);
    let at = events.take(later);
    assert(at.drop_last() =~= before);
    assert(after_events(time, before) <= u64::MAX);
    if earlier < later - 1 {
        law_later_events_have_greater_stamps(time, events, earlier, later - 1);
    }
    lemma_not_negative(time, before);
    law_events_move_forward(after_events(time, before) as u64, at.last());
}

proof fn lemma_not_negative(time: u64, events: Seq<ClockEvent>)
    ensures
        after_events(time, events) >= 0,
    decreases events.len(),
{
    if events.len() > 0 {
        lemma_not_negative(time, events.drop_last());
    }
}

/// A cause carries a smaller stamp than its effect: everything that a node does
/// after receiving a message has a greater stamp than the message.
pub proof fn law_effects_have_greater_stamps(
    time: u64,
    events: Seq<ClockEvent>,
    received: u64,
    arrival: int,
    later: int,
)
    requires
        in_range(time, events),
        0 <= arrival < later <= events.len(),
        events[arrival] == ClockEvent::Receipt(received),
    ensures
        received < after_events(time, events.take(later)),
{
    let before = events.take(arrival);
    let at = events.take(arrival + 1);
    assert(at.drop_last() =~= before);
    assert(after_events(time, before) <= u64::MAX);
    lemma_not_negative(time, before);
    law_events_move_forward(after_events(time, before) as u64, at.last());
    if arrival + 1 < later {
        law_later_events_have_greater_stamps(time, events, arrival + 1, later);
    }
}

/// A clock moves on no further than it must: a local event by one, a receipt to the first
/// value past both its own and the stamp that came.
pub proof fn law_events_move_no_further(time: u64, received: u64, bound: int)
    ensures
        after_tick(time) == time + 1,
        after_receipt(time, received) == time + 1 || after_receipt(time, received) == received
            + 1,
        after_receipt(time, received) > time,
        after_receipt(time, received) > received,
        bound > time && bound > received ==> bound >= after_receipt(time, received),
        after_event(time, ClockEvent::Local) == after_tick(time),
        after_event(time, ClockEvent::Receipt(received)) == after_receipt(time, received),
{
}

} // verus!
