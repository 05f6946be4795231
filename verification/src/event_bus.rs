//! A queue of events that widgets raise and the application handles in order.
use vstd::prelude::*;

verus! {

/// An event: which widget raised it and what it says.
pub struct Event {
    pub source: &'static str,
    pub payload: String,
}

/// `after` is `before` with one more event at the back, from `source`, saying `payload`.
pub open spec fn raised(before: Seq<Event>, after: Seq<Event>, source: &'static str, payload: Seq<char>) -> bool {
    &&& after.len() == before.len() + 1
    &&& after.drop_last() == before
    &&& after.last().source == source
    &&& after.last().payload@ == payload
}

/// Events waiting to be handled, oldest first.
pub struct EventBus {
    events: Vec<Event>,
}

impl EventBus {
    /// The waiting events, oldest first.
    pub closed spec fn pending(&self) -> Seq<Event> {
        self.events@
    }

    /// An empty queue.
    pub fn new() -> (bus: Self)
        ensures
            bus.pending() == Seq::<Event>::empty(),
    {
        Self { events: Vec::new() }
    }

    /// Adds an event at the back of the queue.
    pub fn push(&mut self, source: &'static str, payload: String)
        ensures
            final(self).pending() == old(self).pending().push(Event { source, payload }),
    {
        self.events.push(Event { source, payload });
    }

    /// Takes all waiting events, oldest first, and leaves the queue empty.
    pub fn drain(&mut self) -> (events: Vec<Event>)
        ensures
            events@ == old(self).pending(),
            final(self).pending() == Seq::<Event>::empty(),
    {
        let mut taken: Vec<Event> = Vec::new();
        std::mem::swap(&mut taken, &mut self.events);
        taken
    }
}

} // verus!
