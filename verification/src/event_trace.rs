//! A middleware that changes nothing.

use crate::event::Event;
use crate::sink::EventSink;
use vstd::prelude::*;

verus! {

/// A middleware that hands every event on as it came. It is the place to hook
/// a trace of the stream in.
pub struct EventTrace {}

impl EventTrace {
    pub fn new() -> (trace: EventTrace) {
        EventTrace {  }
    }

    /// Appends `op` to the sink.
    pub fn feed_event(&mut self, op: Event, sink: &mut EventSink) -> (r: Result<(), String>)
        ensures
            r is Ok,
            final(sink)@ == old(sink)@.push(op),
    {
        sink.push(op);
        Ok(())
    }
}

} // verus!
