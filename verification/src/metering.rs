//! The metering transducer.
//!
//! [`Metering::feed_event`] takes the events of a function body one by one and
//! writes them to an [`EventSink`]. Behind the begin of the function and behind
//! every opener it inserts the ten-event charging sequence of [`prelude`], with
//! a cost of zero for the time being, and notes where the cost stands. At the
//! next block boundary the number of events seen since the last one, the
//! boundary event included, is added to that cost.
//!
//! The functions that read and write the points used and the limit of an
//! instance are defined in [`crate::fields`] and can be named from here too.

use crate::event::{BlockType, BreakpointHandler, Event, InternalEvent, Operator};
pub use crate::fields::{
    get_execution_limit, get_execution_limit_ctx, get_points_used, get_points_used_ctx,
    set_execution_limit, set_execution_limit_ctx, set_points_used, set_points_used_ctx,
};
use crate::sink::EventSink;
use vstd::prelude::*;

verus! {

/// The failure that the breakpoint of a charging sequence reports: the points
/// used have passed the limit.
#[derive(Clone, Copy, Debug, PartialEq, Eq, Structural)]
pub struct ExecutionLimitExceededError;

/// Why the transducer gave up. Neither happens on a sink that only this
/// transducer has written to.
#[derive(Clone, Copy, Debug, PartialEq, Eq, Structural)]
pub enum MeteringError {
    /// A position noted for a cost does not hold an owned `I64Const`.
    MalformedSink,
    /// A cost has outgrown its 64 bits.
    CostOverflow,
}

impl MeteringError {
    /// What [`MeteringError::message`] says.
    pub open spec fn text(self) -> Seq<char> {
        match self {
            MeteringError::MalformedSink => "metering: a cost slot does not hold an i64.const"@,
            MeteringError::CostOverflow => "metering: the cost of a block does not fit in 64 bits"@,
        }
    }

    /// The failure in words, for a caller that reports errors as text.
    pub fn message(&self) -> (message: String)
        ensures
            message@ == self.text(),
    {
        match self {
            MeteringError::MalformedSink => {
                "metering: a cost slot does not hold an i64.const".to_owned()
            },
            MeteringError::CostOverflow => {
                "metering: the cost of a block does not fit in 64 bits".to_owned()
            },
        }
    }
}

/// What the breakpoint of a charging sequence answers, whenever it is asked:
/// the call has to stop.
pub fn execution_limit_exceeded() -> (r: Result<(), ExecutionLimitExceededError>)
    ensures
        r == Err::<(), ExecutionLimitExceededError>(ExecutionLimitExceededError),
{
    Err(ExecutionLimitExceededError)
}

/// The points used after a charging sequence has run, and whether the call
/// goes on.
pub struct Charge {
    pub points_used: u64,
    pub result: Result<(), ExecutionLimitExceededError>,
}

/// What a charging sequence of the given cost does when it runs: the cost is
/// added to the points used, as a 64-bit sum, and the call stops if the sum is
/// above the limit. The sum is kept either way.
pub open spec fn charge_effect(points_used: u64, limit: u64, cost: i64) -> Charge {
    let sum = points_used + cost;
    let wrapped = if sum > u64::MAX {
        (sum - 0x1_0000_0000_0000_0000) as u64
    } else if sum < 0 {
        (sum + 0x1_0000_0000_0000_0000) as u64
    } else {
        sum as u64
    };
    Charge {
        points_used: wrapped,
        result: if wrapped > limit {
            Err(ExecutionLimitExceededError)
        } else {
            Ok(())
        },
    }
}

/// Runs a charging sequence of the given cost on the two fields of an
/// instance.
pub fn run_charge(points_used: u64, limit: u64, cost: i64) -> (charge: Charge)
    ensures
        charge == charge_effect(points_used, limit, cost),
{
    let sum: u64 = points_used.wrapping_add_signed(cost);
    if sum > limit {
        Charge { points_used: sum, result: execution_limit_exceeded() }
    } else {
        Charge { points_used: sum, result: Ok(()) }
    }
}

/// The number of events in a charging sequence.
pub const PRELUDE_LEN: usize = 10;

/// The charging sequence for a block of the given cost: add `cost` to the field
/// `used`, and break if the sum is above the field `limit`.
pub open spec fn prelude(used: u32, limit: u32, cost: i64) -> Seq<Event> {
    seq![
        Event::Internal(InternalEvent::GetInternal(used)),
        Event::WasmOwned(Operator::I64Const { value: cost }),
        Event::WasmOwned(Operator::I64Add),
        Event::Internal(InternalEvent::SetInternal(used)),
        Event::Internal(InternalEvent::GetInternal(used)),
        Event::Internal(InternalEvent::GetInternal(limit)),
        Event::WasmOwned(Operator::I64GtU),
        Event::WasmOwned(Operator::If { ty: BlockType::Empty }),
        Event::Internal(InternalEvent::Breakpoint(BreakpointHandler::ExecutionLimitExceeded)),
        Event::WasmOwned(Operator::End),
    ]
}

/// What a transducer knows between two events.
pub struct MeteringState {
    /// Index of the internal field that counts the points used.
    pub used_field: u32,
    /// Index of the internal field that holds the limit.
    pub limit_field: u32,
    /// Sink positions of the costs that wait for the running block to end.
    pub slots: Seq<usize>,
    /// Events seen since the last block boundary.
    pub cost: u64,
}

impl MeteringState {
    /// The state outside of a function body.
    pub open spec fn fresh(used_field: u32, limit_field: u32) -> MeteringState {
        MeteringState { used_field, limit_field, slots: Seq::empty(), cost: 0 }
    }

}

/// A sink after some costs were written, and whether all of them were.
pub struct Patched {
    pub sink: Seq<Event>,
    pub result: Result<(), MeteringError>,
}

/// The cost at `index`, if `sink` holds an owned `I64Const` there.
pub open spec fn slot_value(sink: Seq<Event>, index: int) -> Option<i64> {
    if 0 <= index < sink.len() {
        match sink[index] {
            Event::WasmOwned(Operator::I64Const { value }) => Some(value),
            _ => None,
        }
    } else {
        None
    }
}

/// Adds `cost` to the cost at `index`.
pub open spec fn patch_slot(sink: Seq<Event>, index: usize, cost: u64) -> Patched {
    match slot_value(sink, index as int) {
        None => Patched { sink, result: Err(MeteringError::MalformedSink) },
        Some(value) => if value + cost <= i64::MAX {
            Patched {
                sink: sink.update(
                    index as int,
                    Event::WasmOwned(Operator::I64Const { value: (value + cost) as i64 }),
                ),
                result: Ok(()),
            }
        } else {
            Patched { sink, result: Err(MeteringError::CostOverflow) }
        },
    }
}

/// Adds `cost` to the cost at each of `slots`, first to last, and stops at the
/// first that cannot take it.
pub open spec fn patch(sink: Seq<Event>, slots: Seq<usize>, cost: u64) -> Patched
    decreases slots.len(),
{
    if slots.len() == 0 {
        Patched { sink, result: Ok(()) }
    } else {
        let before = patch(sink, slots.drop_last(), cost);
        if before.result is Err {
            before
        } else {
            patch_slot(before.sink, slots.last(), cost)
        }
    }
}

/// Whether the last ten events of `sink` are taken off at the end of a
/// function: they are if the event before them is an owned `End`.
pub open spec fn strips(sink: Seq<Event>) -> bool {
    sink.len() > PRELUDE_LEN && sink[sink.len() - PRELUDE_LEN - 1] == Event::WasmOwned(
        Operator::End,
    )
}

/// The sink without a charging sequence that no code can reach.
pub open spec fn stripped(sink: Seq<Event>) -> Seq<Event> {
    if strips(sink) {
        sink.take(sink.len() - PRELUDE_LEN)
    } else {
        sink
    }
}

/// A transducer and its sink after one event.
pub struct Fed {
    pub state: MeteringState,
    pub sink: Seq<Event>,
    pub result: Result<(), MeteringError>,
}

/// `ev` and a charging sequence of cost zero appended, its cost noted.
pub open spec fn opened(state: MeteringState, sink: Seq<Event>, ev: Event) -> Fed {
    Fed {
        state: MeteringState { slots: state.slots.push((sink.len() + 2) as usize), ..state },
        sink: sink.push(ev) + prelude(state.used_field, state.limit_field, 0),
        result: Ok(()),
    }
}

/// `ev` appended, with a charging sequence where `ev` opens a block.
pub open spec fn forwarded(state: MeteringState, sink: Seq<Event>, ev: Event) -> Fed {
    if ev.opens_block() {
        opened(state, sink, ev)
    } else {
        Fed { state, sink: sink.push(ev), result: Ok(()) }
    }
}

/// What one event does to a transducer and its sink.
///
/// The event is counted first. At a block boundary the running block ends:
/// the count goes into the costs that wait, no cost waits any more, and
/// counting starts again from zero. That is so where the event closes a
/// block, and where it only opens one, as `FunctionBegin` and `Loop` do. At
/// the end of a function a last charging sequence is taken off again where
/// [`strips`] says so. Then the event itself is written, and behind an event
/// that opens a block a new charging sequence, whose cost is then the only
/// one that waits. After a failure the event is not written.
pub open spec fn step(state: MeteringState, sink: Seq<Event>, ev: Event) -> Fed {
    if state.cost == u64::MAX {
        Fed { state, sink, result: Err(MeteringError::CostOverflow) }
    } else {
        let counted = MeteringState { cost: (state.cost + 1) as u64, ..state };
        if ev.is_boundary() {
            let patched = patch(sink, counted.slots, counted.cost);
            let closed = MeteringState { slots: Seq::empty(), cost: 0, ..state };
            if patched.result is Err {
                Fed { state: counted, sink: patched.sink, result: patched.result }
            } else if ev.is_function_end() {
                Fed { state: closed, sink: stripped(patched.sink).push(ev), result: Ok(()) }
            } else {
                forwarded(closed, patched.sink, ev)
            }
        } else {
            forwarded(counted, sink, ev)
        }
    }
}

/// The transducer: the two field indices it charges through, and what it
/// remembers of the running block.
pub struct Metering {
    used_field: u32,
    limit_field: u32,
    cost_operator_idxs: Vec<usize>,
    current_block_cost: u64,
}

impl View for Metering {
    type V = MeteringState;

    closed spec fn view(&self) -> MeteringState {
        MeteringState {
            used_field: self.used_field,
            limit_field: self.limit_field,
            slots: self.cost_operator_idxs@,
            cost: self.current_block_cost,
        }
    }
}

proof fn lemma_patch_prefix(sink: Seq<Event>, slots: Seq<usize>, cost: u64, i: int)
    requires
        0 <= i < slots.len(),
    ensures
        patch(sink, slots.take(i + 1), cost) == (if patch(sink, slots.take(i), cost).result is Err {
            patch(sink, slots.take(i), cost)
        } else {
            patch_slot(patch(sink, slots.take(i), cost).sink, slots[i], cost)
        }),
{
    assert(slots.take(i + 1).drop_last() =~= slots.take(i));
}

proof fn lemma_patch_error_sticks(sink: Seq<Event>, slots: Seq<usize>, cost: u64, i: int)
    requires
        0 <= i <= slots.len(),
        patch(sink, slots.take(i), cost).result is Err,
    ensures
        patch(sink, slots, cost) == patch(sink, slots.take(i), cost),
    decreases slots.len() - i,
{
    if i == slots.len() {
        assert(slots.take(i) =~= slots);
    } else {
        lemma_patch_prefix(sink, slots, cost, i);
        lemma_patch_error_sticks(sink, slots, cost, i + 1);
    }
}

impl Metering {
    /// A transducer outside of a function body, which charges through the
    /// internal fields with the indices `used_field` and `limit_field`.
    pub fn new(used_field: u32, limit_field: u32) -> (metering: Metering)
        ensures
            metering@ == MeteringState::fresh(used_field, limit_field),
    {
        Metering {
            used_field,
            limit_field,
            cost_operator_idxs: Vec::new(),
            current_block_cost: 0,
        }
    }

    /// Counts one event.
    fn increment_cost(&mut self) -> (r: Result<(), MeteringError>)
        ensures
            old(self)@.cost == u64::MAX ==> r == Err::<(), MeteringError>(
                MeteringError::CostOverflow,
            ) && final(self)@ == old(self)@,
            old(self)@.cost < u64::MAX ==> r == Ok::<(), MeteringError>(()) && final(self)@ == (
            MeteringState { cost: (old(self)@.cost + 1) as u64, ..old(self)@ }),
    {
        if self.current_block_cost == u64::MAX {
            Err(MeteringError::CostOverflow)
        } else {
            self.current_block_cost = self.current_block_cost + 1;
            Ok(())
        }
    }

    /// Writes the count of the running block into the costs that wait for it,
    /// and starts counting again.
    fn set_costs(&mut self, sink: &mut EventSink) -> (r: Result<(), MeteringError>)
        ensures
            ({
                let patched = patch(old(sink)@, old(self)@.slots, old(self)@.cost);
                &&& r == patched.result
                &&& final(sink)@ == patched.sink
                &&& final(self)@ == (if r is Ok {
                    MeteringState { cost: 0, ..old(self)@ }
                } else {
                    old(self)@
                })
            }),
    {
        let ghost sink0 = sink@;
        let ghost state0 = self@;
        let n: usize = self.cost_operator_idxs.len();
        let mut i: usize = 0;
        while i < n
            invariant
                i <= n,
                n == state0.slots.len(),
                sink0 == old(sink)@,
                state0 == old(self)@,
                self@ == state0,
                patch(sink0, state0.slots.take(i as int), state0.cost) == (Patched {
                    sink: sink@,
                    result: Ok(()),
                }),
            decreases n - i,
        {
            let idx: usize = self.cost_operator_idxs[i];
            proof {
                lemma_patch_prefix(sink0, state0.slots, state0.cost, i as int);
            }
            let failure: Option<MeteringError> = match sink.get(idx) {
                Some(Event::WasmOwned(Operator::I64Const { value })) => {
                    let sum: i128 = value as i128 + self.current_block_cost as i128;
                    if sum <= i64::MAX as i128 {
                        sink.set(idx, Event::WasmOwned(Operator::I64Const { value: sum as i64 }));
                        None
                    } else {
                        Some(MeteringError::CostOverflow)
                    }
                },
                _ => Some(MeteringError::MalformedSink),
            };
            match failure {
                Some(e) => {
                    proof {
                        lemma_patch_error_sticks(sink0, state0.slots, state0.cost, i + 1);
                    }
                    return Err(e);
                },
                None => {},
            }
            i = i + 1;
        }
        proof {
            assert(state0.slots.take(n as int) =~= state0.slots);
        }
        self.current_block_cost = 0;
        Ok(())
    }

    /// Ends the running block: writes its cost, then forgets the positions.
    /// A charging sequence is written only behind this, so its cost is the
    /// only one that waits.
    fn end(&mut self, sink: &mut EventSink) -> (r: Result<(), MeteringError>)
        ensures
            ({
                let patched = patch(old(sink)@, old(self)@.slots, old(self)@.cost);
                &&& r == patched.result
                &&& final(sink)@ == patched.sink
                &&& final(self)@ == (if r is Ok {
                    MeteringState { slots: Seq::empty(), cost: 0, ..old(self)@ }
                } else {
                    old(self)@
                })
            }),
    {
        match self.set_costs(sink) {
            Ok(()) => {
                self.cost_operator_idxs.clear();
                Ok(())
            },
            Err(e) => Err(e),
        }
    }

    /// Appends a charging sequence of cost zero and notes where its cost is.
    fn begin(&mut self, sink: &mut EventSink)
        ensures
            final(sink)@ == old(sink)@ + prelude(old(self)@.used_field, old(self)@.limit_field, 0),
            final(self)@ == (MeteringState {
                slots: old(self)@.slots.push((old(sink)@.len() + 1) as usize),
                ..old(self)@
            }),
    {
        sink.push(Event::Internal(InternalEvent::GetInternal(self.used_field)));
        self.cost_operator_idxs.push(sink.len());
        sink.push(Event::WasmOwned(Operator::I64Const { value: 0 }));
        sink.push(Event::WasmOwned(Operator::I64Add));
        sink.push(Event::Internal(InternalEvent::SetInternal(self.used_field)));
        sink.push(Event::Internal(InternalEvent::GetInternal(self.used_field)));
        sink.push(Event::Internal(InternalEvent::GetInternal(self.limit_field)));
        sink.push(Event::WasmOwned(Operator::I64GtU));
        sink.push(Event::WasmOwned(Operator::If { ty: BlockType::Empty }));
        sink.push(
            Event::Internal(InternalEvent::Breakpoint(BreakpointHandler::ExecutionLimitExceeded)),
        );
        sink.push(Event::WasmOwned(Operator::End));
        assert(sink@ =~= old(sink)@ + prelude(old(self)@.used_field, old(self)@.limit_field, 0));
    }

    /// Takes a last charging sequence off the sink if the event before it is
    /// an owned `End`.
    fn strip_trailing(sink: &mut EventSink)
        ensures
            final(sink)@ == stripped(old(sink)@),
    {
        let len: usize = sink.len();
        if len > PRELUDE_LEN {
            match sink.get(len - PRELUDE_LEN - 1) {
                Some(Event::WasmOwned(Operator::End)) => {
                    sink.truncate(len - PRELUDE_LEN);
                },
                _ => {},
            }
        }
    }

    /// Writes `ev` to the sink; behind an opener, a charging sequence too.
    fn forward(&mut self, ev: Event, opens: bool, sink: &mut EventSink)
        requires
            opens == ev.opens_block(),
        ensures
            ({
                let fed = forwarded(old(self)@, old(sink)@, ev);
                &&& final(self)@ == fed.state
                &&& final(sink)@ == fed.sink
            }),
    {
        let slot: usize = sink.len();
        sink.push(Event::WasmOwned(Operator::Unreachable));
        if opens {
            self.begin(sink);
        }
        sink.set(slot, ev);
        assert(sink@ =~= forwarded(old(self)@, old(sink)@, ev).sink);
    }

    /// Takes the next event of the stream and writes what becomes of it to
    /// `sink`, as [`step`] says.
    pub fn feed_event(&mut self, ev: Event, sink: &mut EventSink) -> (r: Result<
        (),
        MeteringError,
    >)
        ensures
            ({
                let fed = step(old(self)@, old(sink)@, ev);
                &&& r == fed.result
                &&& final(self)@ == fed.state
                &&& final(sink)@ == fed.sink
            }),
    {
        match self.increment_cost() {
            Err(e) => {
                return Err(e);
            },
            Ok(()) => {},
        }
        let closes: bool = ev.ends_block();
        let opens: bool = ev.starts_block();
        if closes || opens {
            match self.end(sink) {
                Err(e) => {
                    return Err(e);
                },
                Ok(()) => {},
            }
        }
        match ev {
            Event::Internal(InternalEvent::FunctionEnd) => {
                Self::strip_trailing(sink);
                sink.push(ev);
            },
            _ => {
                self.forward(ev, opens, sink);
            },
        }
        Ok(())
    }
}

} // verus!
