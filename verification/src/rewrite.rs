//! What the transducer makes of a whole stream, said without its bookkeeping.
//!
//! Feeding a stream event by event writes costs of zero first and corrects
//! them later. Seen from the end, the outcome is simpler: the stream falls into
//! blocks, each ended by the next block boundary, and the charging sequence
//! behind the event that began a block carries the number of events that the
//! block counted.
//! [`rewritten`] is that outcome; [`lemma_run_is_midway`] and
//! [`lemma_function_end`] show that it is what [`step`] arrives at.

use crate::event::{Event, InternalEvent};
use crate::metering::{
    forwarded, patch, patch_slot, prelude, slot_value, step, stripped, Fed, MeteringState,
    Patched, PRELUDE_LEN,
};
use vstd::prelude::*;

verus! {

/// A transducer and its sink after a stream of events, fed one after the other
/// until one fails.
pub open spec fn run(state: MeteringState, sink: Seq<Event>, events: Seq<Event>) -> Fed
    decreases events.len(),
{
    if events.len() == 0 {
        Fed { state, sink, result: Ok(()) }
    } else {
        let before = run(state, sink, events.drop_last());
        if before.result is Err {
            before
        } else {
            step(before.state, before.sink, events.last())
        }
    }
}

/// The end of a function body.
pub open spec fn function_end() -> Event {
    Event::Internal(InternalEvent::FunctionEnd)
}

/// Whether the end of a function body is not among `events`.
pub open spec fn within_function(events: Seq<Event>) -> bool {
    forall|i: int| 0 <= i < events.len() ==> !(#[trigger] events[i]).is_function_end()
}

/// Whether a sink that holds `sink` can take the rewritten `events` and the end
/// of the function without its length leaving `usize`.
pub open spec fn fits(sink: Seq<Event>, events: Seq<Event>) -> bool {
    sink.len() + (PRELUDE_LEN + 1) * (events.len() + 1) <= usize::MAX
}

/// What is written for one event when the block it opens costs `cost`.
pub open spec fn emitted(used: u32, limit: u32, ev: Event, cost: i64) -> Seq<Event> {
    if ev.opens_block() {
        seq![ev] + prelude(used, limit, cost)
    } else {
        seq![ev]
    }
}

/// What is written for `events` when every block they open costs `cost`.
pub open spec fn rendered(used: u32, limit: u32, events: Seq<Event>, cost: i64) -> Seq<Event>
    decreases events.len(),
{
    if events.len() == 0 {
        Seq::empty()
    } else {
        rendered(used, limit, events.drop_last(), cost) + emitted(
            used,
            limit,
            events.last(),
            cost,
        )
    }
}

/// The number of events that open a block.
pub open spec fn openers(events: Seq<Event>) -> nat
    decreases events.len(),
{
    if events.len() == 0 {
        0
    } else {
        openers(events.drop_last()) + (if events.last().opens_block() {
            1nat
        } else {
            0nat
        })
    }
}

/// The length of what is written for `events`.
pub open spec fn rendered_len(events: Seq<Event>) -> nat {
    (events.len() + PRELUDE_LEN * openers(events)) as nat
}

/// Where the costs stand in what is written for `events` from position `base`
/// on.
pub open spec fn cost_positions(events: Seq<Event>, base: nat) -> Seq<usize>
    decreases events.len(),
{
    if events.len() == 0 {
        Seq::empty()
    } else {
        let before = cost_positions(events.drop_last(), base);
        if events.last().opens_block() {
            before.push((base + rendered_len(events.drop_last()) + 2) as usize)
        } else {
            before
        }
    }
}

/// The events of the running block: those since the last block boundary,
/// with the event at that boundary.
pub open spec fn open_events(events: Seq<Event>) -> Seq<Event>
    decreases events.len(),
{
    if events.len() == 0 {
        Seq::empty()
    } else if events.last().is_boundary() {
        seq![events.last()]
    } else {
        open_events(events.drop_last()).push(events.last())
    }
}

/// The number of events counted since the last block boundary.
pub open spec fn open_cost(events: Seq<Event>) -> nat
    decreases events.len(),
{
    if events.len() == 0 {
        0
    } else if events.last().is_boundary() {
        0
    } else {
        open_cost(events.drop_last()) + 1
    }
}

/// What is written for the blocks of `events` that have ended: each with the
/// cost that was counted when it ended, the event that ended it included.
pub open spec fn settled(used: u32, limit: u32, events: Seq<Event>) -> Seq<Event>
    decreases events.len(),
{
    if events.len() == 0 {
        Seq::empty()
    } else if events.last().is_boundary() {
        settled(used, limit, events.drop_last()) + rendered(
            used,
            limit,
            open_events(events.drop_last()),
            (open_cost(events.drop_last()) + 1) as i64,
        )
    } else {
        settled(used, limit, events.drop_last())
    }
}

/// What is written for `events` if the running block costs `cost`.
pub open spec fn written(used: u32, limit: u32, events: Seq<Event>, cost: i64) -> Seq<Event> {
    settled(used, limit, events) + rendered(used, limit, open_events(events), cost)
}

/// The cost of the block that runs before the last of `events`, if the
/// running block then costs `cost`: what the block has counted where the last
/// event ends it, and `cost` where the block goes on.
pub open spec fn cost_before(events: Seq<Event>, cost: i64) -> i64 {
    if events.last().is_boundary() {
        (open_cost(events.drop_last()) + 1) as i64
    } else {
        cost
    }
}

/// What is written for the events of a function body up to its end, which
/// ends the last block.
pub open spec fn rewritten(used: u32, limit: u32, events: Seq<Event>) -> Seq<Event> {
    written(used, limit, events, (open_cost(events) + 1) as i64)
}

/// The transducer and its sink in the middle of a function body, after
/// `events`: the blocks that have ended have their costs, the running block
/// waits.
pub open spec fn midway(used: u32, limit: u32, sink: Seq<Event>, events: Seq<Event>) -> Fed {
    Fed {
        state: MeteringState {
            used_field: used,
            limit_field: limit,
            slots: cost_positions(
                open_events(events),
                sink.len() + settled(used, limit, events).len(),
            ),
            cost: open_cost(events) as u64,
        },
        sink: sink + written(used, limit, events, 0),
        result: Ok(()),
    }
}

/// Counting the openers of a stream with one more event, and of a single event.
pub(crate) proof fn lemma_openers_push(events: Seq<Event>, ev: Event)
    ensures
        openers(events.push(ev)) == openers(events) + (if ev.opens_block() {
            1nat
        } else {
            0nat
        }),
        openers(seq![ev]) == (if ev.opens_block() {
            1nat
        } else {
            0nat
        }),
{
    assert(events.push(ev).drop_last() =~= events);
    assert(seq![ev].drop_last() =~= Seq::<Event>::empty());
    assert(openers(seq![ev].drop_last()) == 0);
}

/// What is written for a single event.
pub(crate) proof fn lemma_rendered_single(used: u32, limit: u32, ev: Event, cost: i64)
    ensures
        rendered(used, limit, seq![ev], cost) == emitted(used, limit, ev, cost),
{
    assert(seq![ev].drop_last() =~= Seq::<Event>::empty());
    assert(rendered(used, limit, Seq::<Event>::empty(), cost) =~= Seq::<Event>::empty());
    assert(rendered(used, limit, seq![ev], cost) =~= emitted(used, limit, ev, cost));
}

/// What is written for a stream has every event and ten more for every opener.
pub(crate) proof fn lemma_rendered_len(used: u32, limit: u32, events: Seq<Event>, cost: i64)
    ensures
        rendered(used, limit, events, cost).len() == rendered_len(events),
    decreases events.len(),
{
    if events.len() > 0 {
        lemma_rendered_len(used, limit, events.drop_last(), cost);
    }
}

/// A block has counted no more events than the stream holds.
pub(crate) proof fn lemma_open_cost_bound(events: Seq<Event>)
    ensures
        open_cost(events) <= events.len(),
    decreases events.len(),
{
    if events.len() > 0 {
        lemma_open_cost_bound(events.drop_last());
    }
}

/// The ended blocks and the running block together are as long as what is
/// written for all events.
pub(crate) proof fn lemma_written_len(used: u32, limit: u32, events: Seq<Event>, cost: i64)
    ensures
        written(used, limit, events, cost).len() == rendered_len(events),
        settled(used, limit, events).len() + rendered_len(open_events(events)) == rendered_len(
            events,
        ),
        openers(events) <= events.len(),
    decreases events.len(),
{
    lemma_rendered_len(used, limit, open_events(events), cost);
    if events.len() > 0 {
        let init = events.drop_last();
        let last = events.last();
        lemma_written_len(used, limit, init, (open_cost(init) + 1) as i64);
        if last.is_boundary() {
            lemma_openers_push(Seq::empty(), last);
        } else {
            lemma_openers_push(open_events(init), last);
        }
    }
}

/// What is written for a stream is what was written before its last event,
/// with the costs of a block that the last event ends, and then what is
/// written for the last event.
pub(crate) proof fn lemma_written_step(used: u32, limit: u32, events: Seq<Event>, cost: i64)
    requires
        events.len() > 0,
    ensures
        written(used, limit, events, cost) == written(
            used,
            limit,
            events.drop_last(),
            cost_before(events, cost),
        ) + emitted(used, limit, events.last(), cost),
{
    let init = events.drop_last();
    let last = events.last();
    if last.is_boundary() {
        lemma_rendered_single(used, limit, last, cost);
    } else {
        assert(open_events(events).drop_last() =~= open_events(init));
    }
    assert(written(used, limit, events, cost) =~= written(
        used,
        limit,
        init,
        cost_before(events, cost),
    ) + emitted(used, limit, last, cost));
}

proof fn lemma_patch_len(sink: Seq<Event>, slots: Seq<usize>, cost: u64)
    ensures
        patch(sink, slots, cost).sink.len() == sink.len(),
    decreases slots.len(),
{
    if slots.len() > 0 {
        lemma_patch_len(sink, slots.drop_last(), cost);
    }
}

/// Costs that were written without failure are written in the same way when
/// more events follow in the sink.
proof fn lemma_patch_append(sink: Seq<Event>, more: Seq<Event>, slots: Seq<usize>, cost: u64)
    requires
        patch(sink, slots, cost).result is Ok,
    ensures
        patch(sink + more, slots, cost) == (Patched {
            sink: patch(sink, slots, cost).sink + more,
            result: Ok(()),
        }),
    decreases slots.len(),
{
    if slots.len() == 0 {
    } else {
        let before = patch(sink, slots.drop_last(), cost);
        lemma_patch_append(sink, more, slots.drop_last(), cost);
        lemma_patch_len(sink, slots.drop_last(), cost);
        let index = slots.last() as int;
        assert(slot_value(before.sink, index) is Some);
        assert((before.sink + more)[index] == before.sink[index]);
        let after = patch_slot(before.sink, slots.last(), cost);
        assert(patch_slot(before.sink + more, slots.last(), cost).sink =~= after.sink + more);
    }
}

/// Closing a block turns the costs of zero that were written for its events
/// into the cost of the block.
proof fn lemma_patch_rendered(
    used: u32,
    limit: u32,
    head: Seq<Event>,
    events: Seq<Event>,
    cost: u64,
)
    requires
        cost <= i64::MAX,
        head.len() + rendered_len(events) <= usize::MAX,
    ensures
        patch(
            head + rendered(used, limit, events, 0),
            cost_positions(events, head.len()),
            cost,
        ) == (Patched { sink: head + rendered(used, limit, events, cost as i64), result: Ok(()) }),
    decreases events.len(),
{
    if events.len() == 0 {
    } else {
        let init = events.drop_last();
        let last = events.last();
        let base = head.len();
        lemma_patch_rendered(used, limit, head, init, cost);
        lemma_rendered_len(used, limit, init, 0);
        lemma_rendered_len(used, limit, init, cost as i64);
        let zero = head + rendered(used, limit, init, 0);
        let paid = head + rendered(used, limit, init, cost as i64);
        let tail = emitted(used, limit, last, 0);
        lemma_patch_append(zero, tail, cost_positions(init, base), cost);
        assert(head + rendered(used, limit, events, 0) =~= zero + tail);
        if last.opens_block() {
            let slot = (base + rendered_len(init) + 2) as usize;
            let slots = cost_positions(events, base);
            assert(slots.drop_last() =~= cost_positions(init, base));
            assert(slots.last() == slot);
            assert((paid + tail)[slot as int] == tail[2]);
            assert((paid + tail).update(
                slot as int,
                Event::WasmOwned(crate::event::Operator::I64Const { value: cost as i64 }),
            ) =~= head + rendered(used, limit, events, cost as i64));
        } else {
            assert(paid + tail =~= head + rendered(used, limit, events, cost as i64));
        }
    }
}

/// Writing one more event of the running block.
proof fn lemma_forwarded(
    used: u32,
    limit: u32,
    head: Seq<Event>,
    block: Seq<Event>,
    ev: Event,
    cost: u64,
)
    ensures
        forwarded(
            MeteringState {
                used_field: used,
                limit_field: limit,
                slots: cost_positions(block, head.len()),
                cost,
            },
            head + rendered(used, limit, block, 0),
            ev,
        ) == (Fed {
            state: MeteringState {
                used_field: used,
                limit_field: limit,
                slots: cost_positions(block.push(ev), head.len()),
                cost,
            },
            sink: head + rendered(used, limit, block.push(ev), 0),
            result: Ok(()),
        }),
{
    let state = MeteringState {
        used_field: used,
        limit_field: limit,
        slots: cost_positions(block, head.len()),
        cost,
    };
    let sink = head + rendered(used, limit, block, 0);
    assert(block.push(ev).drop_last() =~= block);
    lemma_rendered_len(used, limit, block, 0);
    let fed = forwarded(state, sink, ev);
    assert(fed.sink =~= head + rendered(used, limit, block.push(ev), 0));
    assert(fed.state.slots =~= cost_positions(block.push(ev), head.len()));
}

/// One more event in the middle of a function body.
proof fn lemma_step_midway(
    used: u32,
    limit: u32,
    sink: Seq<Event>,
    events: Seq<Event>,
    ev: Event,
)
    requires
        fits(sink, events.push(ev)),
        !ev.is_function_end(),
    ensures
        ({
            let before = midway(used, limit, sink, events);
            step(before.state, before.sink, ev) == midway(used, limit, sink, events.push(ev))
        }),
{
    let all = events.push(ev);
    assert(all.drop_last() =~= events);
    let before = midway(used, limit, sink, events);
    lemma_open_cost_bound(events);
    lemma_written_len(used, limit, events, 0);
    let head = sink + settled(used, limit, events);
    let block = open_events(events);
    assert(before.sink =~= head + rendered(used, limit, block, 0));
    if ev.is_boundary() {
        let cost = (open_cost(events) + 1) as u64;
        lemma_patch_rendered(used, limit, head, block, cost);
        let paid = head + rendered(used, limit, block, cost as i64);
        assert(paid =~= sink + settled(used, limit, all));
        assert(rendered(used, limit, Seq::<Event>::empty(), 0) =~= Seq::<Event>::empty());
        assert(paid =~= paid + rendered(used, limit, Seq::<Event>::empty(), 0));
        lemma_forwarded(used, limit, paid, Seq::empty(), ev, 0);
        assert(Seq::<Event>::empty().push(ev) =~= seq![ev]);
        assert(cost_positions(Seq::<Event>::empty(), paid.len()) =~= Seq::<usize>::empty());
        assert(midway(used, limit, sink, all).sink =~= paid + rendered(used, limit, seq![ev], 0));
    } else {
        lemma_forwarded(used, limit, head, block, ev, (open_cost(events) + 1) as u64);
        assert(midway(used, limit, sink, all).sink =~= head + rendered(
            used,
            limit,
            block.push(ev),
            0,
        ));
    }
}

/// In the middle of a function body the transducer stands as [`midway`] says.
pub proof fn lemma_run_is_midway(used: u32, limit: u32, sink: Seq<Event>, events: Seq<Event>)
    requires
        within_function(events),
        fits(sink, events),
    ensures
        run(MeteringState::fresh(used, limit), sink, events) == midway(used, limit, sink, events),
    decreases events.len(),
{
    if events.len() == 0 {
        assert(midway(used, limit, sink, events).sink =~= sink);
    } else {
        let init = events.drop_last();
        let last = events.last();
        assert(init.push(last) =~= events);
        assert(within_function(init)) by {
            assert forall|i: int| 0 <= i < init.len() implies !(#[trigger] init[i]).is_function_end(
            ) by {
                assert(init[i] == events[i]);
            }
        }
        assert(!events[events.len() - 1].is_function_end());
        lemma_run_is_midway(used, limit, sink, init);
        lemma_step_midway(used, limit, sink, init, last);
    }
}

/// At the end of a function body the sink holds [`rewritten`], without a last
/// charging sequence where [`stripped`] takes it off, and the transducer is as
/// it was before the function.
pub proof fn lemma_function_end(used: u32, limit: u32, sink: Seq<Event>, events: Seq<Event>)
    requires
        within_function(events),
        fits(sink, events),
    ensures
        run(MeteringState::fresh(used, limit), sink, events.push(function_end())) == (Fed {
            state: MeteringState::fresh(used, limit),
            sink: stripped(sink + rewritten(used, limit, events)).push(function_end()),
            result: Ok(()),
        }),
{
    let all = events.push(function_end());
    assert(all.drop_last() =~= events);
    lemma_run_is_midway(used, limit, sink, events);
    let before = midway(used, limit, sink, events);
    lemma_open_cost_bound(events);
    lemma_written_len(used, limit, events, 0);
    let head = sink + settled(used, limit, events);
    assert(before.sink =~= head + rendered(used, limit, open_events(events), 0));
    let cost = (open_cost(events) + 1) as u64;
    lemma_patch_rendered(used, limit, head, open_events(events), cost);
    assert(head + rendered(used, limit, open_events(events), cost as i64) =~= sink + rewritten(
        used,
        limit,
        events,
    ));
}

} // verus!
