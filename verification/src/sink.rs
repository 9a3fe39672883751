//! The buffer that rewritten events are collected in.

use crate::event::Event;
use vstd::prelude::*;

verus! {

/// A growable buffer of events. An event keeps the position it was pushed at,
/// so a position can be noted now and written to later.
pub struct EventSink {
    buffer: Vec<Event>,
}

impl View for EventSink {
    type V = Seq<Event>;

    closed spec fn view(&self) -> Seq<Event> {
        self.buffer@
    }
}

impl EventSink {
    /// An empty sink.
    pub fn new() -> (sink: EventSink)
        ensures
            sink@ == Seq::<Event>::empty(),
    {
        EventSink { buffer: Vec::new() }
    }

    /// The number of events in the sink.
    pub fn len(&self) -> (n: usize)
        ensures
            n == self@.len(),
    {
        self.buffer.len()
    }

    /// Appends `ev`; the events already there keep their positions.
    pub fn push(&mut self, ev: Event)
        ensures
            final(self)@ == old(self)@.push(ev),
    {
        self.buffer.push(ev);
    }

    /// The event at `index`, if the sink is that long.
    pub fn get(&self, index: usize) -> (ev: Option<Event>)
        ensures
            ev == (if index < self@.len() {
                Some(self@[index as int])
            } else {
                None
            }),
    {
        if index < self.buffer.len() {
            Some(self.buffer[index])
        } else {
            None
        }
    }

    /// Overwrites the event at `index` and says whether there was one; a sink
    /// that is too short stays as it is.
    pub fn set(&mut self, index: usize, ev: Event) -> (written: bool)
        ensures
            written == (index < old(self)@.len()),
            final(self)@ == (if index < old(self)@.len() {
                old(self)@.update(index as int, ev)
            } else {
                old(self)@
            }),
    {
        if index < self.buffer.len() {
            self.buffer.set(index, ev);
            true
        } else {
            false
        }
    }

    /// Drops all events from position `len` on; a sink no longer than `len`
    /// stays as it is.
    pub(crate) fn truncate(&mut self, len: usize)
        ensures
            final(self)@ == (if len <= old(self)@.len() {
                old(self)@.take(len as int)
            } else {
                old(self)@
            }),
    {
        self.buffer.truncate(len);
    }
}

} // verus!
