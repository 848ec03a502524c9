//! Event pipes: a growable list of event values per event kind.

use vstd::prelude::*;

verus! {

/// A marker for value types that can ride an event pipe.
pub trait Event {

}

/// The events of one kind sent since the pipe was last cleared.
#[derive(Debug)]
pub struct Events<E> {
    pub events: Vec<E>,
}

impl<E: Event> Events<E> {
    pub fn new() -> (r: Events<E>)
        ensures
            r.events@ =~= Seq::<E>::empty(),
    {
        Events { events: Vec::new() }
    }

    /// Appends one event.
    pub fn send(&mut self, event: E)
        ensures
            final(self).events@ == old(self).events@.push(event),
    {
        self.events.push(event);
    }

    pub fn len(&self) -> (r: usize)
        ensures
            r == self.events@.len(),
    {
        self.events.len()
    }

    pub fn is_empty(&self) -> (r: bool)
        ensures
            r == (self.events@.len() == 0),
    {
        self.events.is_empty()
    }

    /// The events sent so far, in order.
    pub fn iter(&self) -> (r: &Vec<E>)
        ensures
            r@ == self.events@,
    {
        &self.events
    }
}

/// Empties an event pipe.
pub fn clear_events<E: Event>(events: &mut Events<E>)
    ensures
        final(events).events@ =~= Seq::<E>::empty(),
{
    events.events.clear();
}

} // verus!
