//! Events and utilities for delivering them to game objects.
use vstd::prelude::*;

verus! {

/// Events that occur within systems and are gathered in [`EventSink`]s.
///
/// `C` is the contact report that the physics system produces.
#[derive(Clone, Copy, Debug)]
pub enum Event<C> {
    /// A contact happened in the physics system.
    Contact(C),
}

/// A component that gathers events that occur to the components
/// it's connected to in the graph.
pub struct EventSink<C> {
    events: Vec<Event<C>>,
}

impl<C> EventSink<C> {
    /// The events gathered so far, oldest first.
    pub closed spec fn events(&self) -> Seq<Event<C>> {
        self.events@
    }

    pub(crate) fn new() -> (r: EventSink<C>)
        ensures
            r.events() == Seq::<Event<C>>::empty(),
    {
        EventSink { events: Vec::new() }
    }

    /// Push an event into the sink for later consumption.
    pub fn push(&mut self, evt: Event<C>)
        ensures
            final(self).events() == old(self).events().push(evt),
    {
        self.events.push(evt);
    }
}

impl<C> Default for EventSink<C> {
    fn default() -> (r: Self)
        ensures
            r.events() == Seq::<Event<C>>::empty(),
    {
        Self::new()
    }
}

} // verus!
