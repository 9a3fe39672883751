//! What holds of every function body that the transducer rewrites.
//!
//! A function body is a stream of events without a `FunctionEnd`, followed by
//! one. The transducer starts outside of a function body, on a sink that may
//! hold earlier functions.

use crate::event::{Event, InternalEvent, Operator};
use crate::metering::{
    patch, prelude, slot_value, stripped, strips, MeteringError, MeteringState, PRELUDE_LEN,
};
use crate::rewrite::{
    cost_positions, emitted, fits, function_end, lemma_function_end, lemma_open_cost_bound,
    lemma_openers_push, lemma_rendered_len, lemma_rendered_single, lemma_run_is_midway,
    lemma_written_len, midway, open_cost, open_events, openers, rendered, rendered_len, rewritten,
    run, settled, within_function, written,
};
use vstd::prelude::*;

verus! {

/// Whether `sink` holds the charging sequence of the given cost with its cost
/// at `slot`, right behind an event that opens a block.
pub open spec fn prelude_at(used: u32, limit: u32, sink: Seq<Event>, slot: int, cost: i64) -> bool {
    &&& 2 <= slot
    &&& slot + PRELUDE_LEN - 1 <= sink.len()
    &&& sink[slot - 2].opens_block()
    &&& sink.subrange(slot - 1, slot - 1 + PRELUDE_LEN) == prelude(used, limit, cost)
}

/// Whether `sink` holds a whole charging sequence whose cost stands at `slot`
/// and is at least one, right behind an event that opens a block.
pub open spec fn charged_at(used: u32, limit: u32, sink: Seq<Event>, slot: int) -> bool {
    match slot_value(sink, slot) {
        Some(cost) => cost >= 1 && prelude_at(used, limit, sink, slot, cost),
        None => false,
    }
}

/// Whether a cost waits at every block boundary of `events` behind the first
/// event: no block has run without a charging sequence before it.
pub open spec fn always_waiting(events: Seq<Event>) -> bool {
    forall|n: int|
        1 <= n < events.len() && (#[trigger] events[n]).is_boundary() ==> openers(
            open_events(events.take(n)),
        ) == 1
}

/// The costs that stand in `sink` at `positions`, added up. A position that
/// holds no cost adds nothing.
pub open spec fn costs_at(sink: Seq<Event>, positions: Seq<usize>) -> int
    decreases positions.len(),
{
    if positions.len() == 0 {
        0
    } else {
        costs_at(sink, positions.drop_last()) + (match slot_value(sink, positions.last() as int) {
            Some(cost) => cost as int,
            None => 0,
        })
    }
}

/// The points that are counted and written nowhere: the count of every block
/// that ends with no cost waiting for it. Such a block begins the stream, or
/// stands behind a `Br`, `BrTable` or `Return`; the count of the first always
/// holds the point of the first event.
pub open spec fn unpaid(events: Seq<Event>) -> int
    decreases events.len(),
{
    if events.len() == 0 {
        0
    } else {
        let before = events.drop_last();
        unpaid(before) + (if events.last().is_boundary() && openers(open_events(before)) == 0 {
            open_cost(before) + 1
        } else {
            0
        })
    }
}

proof fn lemma_prelude_at_extends(
    used: u32,
    limit: u32,
    sink: Seq<Event>,
    more: Seq<Event>,
    slot: int,
    cost: i64,
)
    requires
        prelude_at(used, limit, sink, slot, cost),
    ensures
        prelude_at(used, limit, sink + more, slot, cost),
        slot_value(sink + more, slot) == Some(cost),
{
    let longer = sink + more;
    assert(longer[slot - 2] == sink[slot - 2]);
    assert(longer[slot] == sink.subrange(slot - 1, slot - 1 + PRELUDE_LEN)[1]);
    assert(longer.subrange(slot - 1, slot - 1 + PRELUDE_LEN) =~= sink.subrange(
        slot - 1,
        slot - 1 + PRELUDE_LEN,
    ));
}

pub(crate) proof fn lemma_charged_at_extends(
    used: u32,
    limit: u32,
    sink: Seq<Event>,
    more: Seq<Event>,
    slot: int,
)
    requires
        charged_at(used, limit, sink, slot),
    ensures
        charged_at(used, limit, sink + more, slot),
{
    lemma_prelude_at_extends(used, limit, sink, more, slot, slot_value(sink, slot).unwrap());
}

proof fn lemma_cost_positions_len(events: Seq<Event>, base: nat)
    ensures
        cost_positions(events, base).len() == openers(events),
    decreases events.len(),
{
    if events.len() > 0 {
        lemma_cost_positions_len(events.drop_last(), base);
    }
}

/// Every cost position of a rendered block holds a charging sequence.
proof fn lemma_rendered_prelude_at(
    used: u32,
    limit: u32,
    head: Seq<Event>,
    events: Seq<Event>,
    cost: i64,
    k: int,
)
    requires
        head.len() + rendered_len(events) <= usize::MAX,
        0 <= k < cost_positions(events, head.len()).len(),
    ensures
        prelude_at(
            used,
            limit,
            head + rendered(used, limit, events, cost),
            cost_positions(events, head.len())[k] as int,
            cost,
        ),
        slot_value(
            head + rendered(used, limit, events, cost),
            cost_positions(events, head.len())[k] as int,
        ) == Some(cost),
    decreases events.len(),
{
    let init = events.drop_last();
    let last = events.last();
    let before = head + rendered(used, limit, init, cost);
    let tail = emitted(used, limit, last, cost);
    lemma_rendered_len(used, limit, init, cost);
    assert(head + rendered(used, limit, events, cost) =~= before + tail);
    if k < cost_positions(init, head.len()).len() {
        lemma_rendered_prelude_at(used, limit, head, init, cost, k);
        lemma_prelude_at_extends(
            used,
            limit,
            before,
            tail,
            cost_positions(init, head.len())[k] as int,
            cost,
        );
    } else {
        let slot = (head.len() + rendered_len(init) + 2) as int;
        let all = before + tail;
        assert(all[slot - 2] == tail[0]);
        assert(all[slot] == tail[2]);
        assert(all.subrange(slot - 1, slot - 1 + PRELUDE_LEN) =~= prelude(used, limit, cost));
    }
}

/// A position that the transducer has noted holds a charging sequence from the
/// end of its block on, however the stream goes on.
proof fn lemma_noted_is_charged(
    used: u32,
    limit: u32,
    sink: Seq<Event>,
    events: Seq<Event>,
    n: int,
    k: int,
    cost: i64,
)
    requires
        fits(sink, events),
        0 <= n <= events.len(),
        0 <= k < midway(used, limit, sink, events.take(n)).state.slots.len(),
        cost >= 1,
    ensures
        charged_at(
            used,
            limit,
            sink + written(used, limit, events, cost),
            midway(used, limit, sink, events.take(n)).state.slots[k] as int,
        ),
    decreases events.len(),
{
    let slot = midway(used, limit, sink, events.take(n)).state.slots[k] as int;
    if n == events.len() {
        assert(events.take(n) =~= events);
        let head = sink + settled(used, limit, events);
        lemma_written_len(used, limit, events, cost);
        lemma_rendered_prelude_at(used, limit, head, open_events(events), cost, k);
        assert(sink + written(used, limit, events, cost) =~= head + rendered(
            used,
            limit,
            open_events(events),
            cost,
        ));
    } else {
        let init = events.drop_last();
        let last = events.last();
        assert(init.take(n) =~= events.take(n));
        let tail = emitted(used, limit, last, cost);
        if last.is_boundary() {
            lemma_open_cost_bound(init);
            let closed = (open_cost(init) + 1) as i64;
            lemma_noted_is_charged(used, limit, sink, init, n, k, closed);
            let before = sink + written(used, limit, init, closed);
            lemma_charged_at_extends(used, limit, before, tail, slot);
            lemma_rendered_single(used, limit, last, cost);
            assert(sink + written(used, limit, events, cost) =~= before + tail);
        } else {
            lemma_noted_is_charged(used, limit, sink, init, n, k, cost);
            let before = sink + written(used, limit, init, cost);
            lemma_charged_at_extends(used, limit, before, tail, slot);
            assert(open_events(events).drop_last() =~= open_events(init));
            assert(sink + written(used, limit, events, cost) =~= before + tail);
        }
    }
}

proof fn lemma_prefix_within(sink: Seq<Event>, events: Seq<Event>, n: int)
    requires
        within_function(events),
        fits(sink, events),
        0 <= n <= events.len(),
    ensures
        within_function(events.take(n)),
        fits(sink, events.take(n)),
{
    assert forall|i: int| 0 <= i < events.take(n).len() implies !(#[trigger] events.take(
        n,
    )[i]).is_function_end() by {
        assert(events.take(n)[i] == events[i]);
    }
}

/// Whether every position in `slots` holds an owned `I64Const` in `sink`.
pub open spec fn holds_costs(sink: Seq<Event>, slots: Seq<usize>) -> bool {
    forall|k: int| 0 <= k < slots.len() ==> slot_value(sink, #[trigger] slots[k] as int) is Some
}

/// Writing a cost leaves every event of its kind: where a cost stood, a cost
/// stands.
proof fn lemma_patch_keeps_costs(sink: Seq<Event>, slots: Seq<usize>, cost: u64, index: int)
    ensures
        slot_value(patch(sink, slots, cost).sink, index) is Some <==> slot_value(sink, index)
            is Some,
    decreases slots.len(),
{
    if slots.len() > 0 {
        lemma_patch_keeps_costs(sink, slots.drop_last(), cost, index);
    }
}

/// Malformed sink. Ending a block fails with `MalformedSink` only where a
/// position noted for a cost does not hold an owned `I64Const`; and where one
/// does not, ending the block fails.
pub proof fn law_malformed_sink(sink: Seq<Event>, slots: Seq<usize>, cost: u64)
    ensures
        holds_costs(sink, slots) ==> patch(sink, slots, cost).result != Err::<(), MeteringError>(
            MeteringError::MalformedSink,
        ),
        !holds_costs(sink, slots) ==> patch(sink, slots, cost).result is Err,
    decreases slots.len(),
{
    if slots.len() > 0 {
        let init = slots.drop_last();
        law_malformed_sink(sink, init, cost);
        lemma_patch_keeps_costs(sink, init, cost, slots.last() as int);
        if holds_costs(sink, slots) {
            assert forall|k: int| 0 <= k < init.len() implies slot_value(
                sink,
                #[trigger] init[k] as int,
            ) is Some by {
                assert(init[k] == slots[k]);
            }
            assert(slots[slots.len() - 1] == slots.last());
        } else if holds_costs(sink, init) {
            let k = choose|k: int|
                0 <= k < slots.len() && !(slot_value(sink, #[trigger] slots[k] as int) is Some);
            if k < init.len() {
                assert(init[k] == slots[k]);
            }
        }
    }
}

/// Waiting costs. At any time inside a function body, every position that the
/// transducer holds for a cost stands in a charging sequence of cost zero,
/// right behind `FunctionBegin` or an opener; and the transducer has not
/// failed.
pub proof fn law_waiting_costs(used: u32, limit: u32, sink: Seq<Event>, events: Seq<Event>, k: int)
    requires
        within_function(events),
        fits(sink, events),
        0 <= k < run(MeteringState::fresh(used, limit), sink, events).state.slots.len(),
    ensures
        ({
            let now = run(MeteringState::fresh(used, limit), sink, events);
            &&& now.result is Ok
            &&& prelude_at(used, limit, now.sink, now.state.slots[k] as int, 0)
            &&& slot_value(now.sink, now.state.slots[k] as int) == Some(0i64)
        }),
{
    lemma_run_is_midway(used, limit, sink, events);
    lemma_written_len(used, limit, events, 0);
    let head = sink + settled(used, limit, events);
    lemma_rendered_prelude_at(used, limit, head, open_events(events), 0, k);
    assert(sink + written(used, limit, events, 0) =~= head + rendered(
        used,
        limit,
        open_events(events),
        0,
    ));
}

/// One cost waits. At any time inside a function body no more than one
/// position is noted for a cost: the costs that wait are written at every
/// block boundary, before a new charging sequence is.
pub proof fn law_one_cost_waits(used: u32, limit: u32, sink: Seq<Event>, events: Seq<Event>)
    requires
        within_function(events),
        fits(sink, events),
    ensures
        run(MeteringState::fresh(used, limit), sink, events).state.slots.len() <= 1,
{
    lemma_run_is_midway(used, limit, sink, events);
    lemma_one_waiting(events);
    lemma_cost_positions_len(open_events(events), sink.len() + settled(used, limit, events).len());
}

/// Balance. Every event of a function body is written once, and a charging
/// sequence behind `FunctionBegin` and behind every opener. The sink grows by
/// as many charging sequences as the body has openers, plus one for
/// `FunctionBegin`, less one where the last is taken off at the end.
pub proof fn law_balance(used: u32, limit: u32, sink: Seq<Event>, index: u32, body: Seq<Event>)
    requires
        within_function(body),
        fits(sink, seq![Event::Internal(InternalEvent::FunctionBegin(index))] + body),
    ensures
        ({
            let events = seq![Event::Internal(InternalEvent::FunctionBegin(index))] + body;
            let end = run(MeteringState::fresh(used, limit), sink, events.push(function_end()));
            let taken_off: int = if strips(sink + rewritten(used, limit, events)) {
                1
            } else {
                0
            };
            &&& end.result is Ok
            &&& end.sink.len() == sink.len() + events.len() + 1 + PRELUDE_LEN * (openers(body) + 1
                - taken_off)
        }),
{
    let begin = Event::Internal(InternalEvent::FunctionBegin(index));
    let events = seq![begin] + body;
    assert forall|i: int| 0 <= i < events.len() implies !(#[trigger] events[i]).is_function_end(
    ) by {
        if i > 0 {
            assert(events[i] == body[i - 1]);
        }
    }
    lemma_function_end(used, limit, sink, events);
    lemma_written_len(used, limit, events, (open_cost(events) + 1) as i64);
    lemma_openers_concat(seq![begin], body);
    lemma_openers_push(Seq::empty(), begin);
}

proof fn lemma_openers_concat(first: Seq<Event>, second: Seq<Event>)
    ensures
        openers(first + second) == openers(first) + openers(second),
    decreases second.len(),
{
    if second.len() == 0 {
        assert(first + second =~= first);
    } else {
        lemma_openers_concat(first, second.drop_last());
        assert((first + second).drop_last() =~= first + second.drop_last());
    }
}

/// Slot integrity. At the end of a function body, every position that the
/// transducer has noted for a cost at any time holds an owned `I64Const` of at
/// least one, unless the position went with a charging sequence that was
/// taken off.
pub proof fn law_slot_integrity(
    used: u32,
    limit: u32,
    sink: Seq<Event>,
    events: Seq<Event>,
    n: int,
    k: int,
)
    requires
        within_function(events),
        fits(sink, events),
        0 <= n <= events.len(),
        0 <= k < run(MeteringState::fresh(used, limit), sink, events.take(n)).state.slots.len(),
    ensures
        ({
            let start = MeteringState::fresh(used, limit);
            let slot = run(start, sink, events.take(n)).state.slots[k] as int;
            let end = run(start, sink, events.push(function_end()));
            slot + 1 < end.sink.len() ==> match slot_value(end.sink, slot) {
                Some(cost) => cost >= 1,
                None => false,
            }
        }),
{
    lemma_prefix_within(sink, events, n);
    lemma_run_is_midway(used, limit, sink, events.take(n));
    lemma_function_end(used, limit, sink, events);
    lemma_open_cost_bound(events);
    lemma_noted_is_charged(used, limit, sink, events, n, k, (open_cost(events) + 1) as i64);
}

/// Opener before. At the end of a function body, every position that the
/// transducer has noted for a cost stands in a whole charging sequence, and
/// the event right before that sequence is `FunctionBegin` or an opener,
/// unless the sequence was taken off, whole or in part.
pub proof fn law_opener_before(
    used: u32,
    limit: u32,
    sink: Seq<Event>,
    events: Seq<Event>,
    n: int,
    k: int,
)
    requires
        within_function(events),
        fits(sink, events),
        0 <= n <= events.len(),
        0 <= k < run(MeteringState::fresh(used, limit), sink, events.take(n)).state.slots.len(),
    ensures
        ({
            let start = MeteringState::fresh(used, limit);
            let slot = run(start, sink, events.take(n)).state.slots[k] as int;
            let end = run(start, sink, events.push(function_end()));
            slot + PRELUDE_LEN <= end.sink.len() ==> charged_at(used, limit, end.sink, slot)
        }),
{
    lemma_prefix_within(sink, events, n);
    lemma_run_is_midway(used, limit, sink, events.take(n));
    lemma_function_end(used, limit, sink, events);
    lemma_open_cost_bound(events);
    lemma_noted_is_charged(used, limit, sink, events, n, k, (open_cost(events) + 1) as i64);
    let start = MeteringState::fresh(used, limit);
    let slot = run(start, sink, events.take(n)).state.slots[k] as int;
    let end = run(start, sink, events.push(function_end()));
    let full = sink + rewritten(used, limit, events);
    if slot + PRELUDE_LEN <= end.sink.len() {
        assert(end.sink[slot - 2] == full[slot - 2]);
        assert(end.sink[slot] == full[slot]);
        assert(end.sink.subrange(slot - 1, slot - 1 + PRELUDE_LEN) =~= full.subrange(
            slot - 1,
            slot - 1 + PRELUDE_LEN,
        ));
    }
}

/// No more than one cost waits at any time.
proof fn lemma_one_waiting(events: Seq<Event>)
    ensures
        openers(open_events(events)) <= 1,
    decreases events.len(),
{
    if events.len() > 0 {
        let init = events.drop_last();
        let last = events.last();
        if last.is_boundary() {
            lemma_openers_push(Seq::empty(), last);
        } else {
            lemma_one_waiting(init);
            lemma_openers_push(open_events(init), last);
        }
    }
}

/// Where a cost waits at every boundary behind the first event, and the first
/// event is a boundary, only the point of the first event is written nowhere.
proof fn lemma_always_waiting(events: Seq<Event>)
    requires
        always_waiting(events),
        events.len() > 0,
        events[0].is_boundary(),
    ensures
        unpaid(events) == 1,
    decreases events.len(),
{
    let init = events.drop_last();
    let n = init.len() as int;
    assert(init =~= events.take(n));
    if n == 0 {
        assert(openers(open_events(init)) == 0);
        assert(open_cost(init) == 0);
        assert(unpaid(init) == 0);
    } else {
        assert(always_waiting(init)) by {
            assert forall|i: int|
                1 <= i < init.len() && (#[trigger] init[i]).is_boundary() implies openers(
                open_events(init.take(i)),
            ) == 1 by {
                assert(init[i] == events[i]);
                assert(init.take(i) =~= events.take(i));
            }
        }
        assert(init[0] == events[0]);
        lemma_always_waiting(init);
        if events.last().is_boundary() {
            assert(events[n].is_boundary());
            assert(openers(open_events(events.take(n))) == 1);
        }
    }
}

/// Every cost of a stream stands inside what is written for the stream.
proof fn lemma_positions_bound(events: Seq<Event>, base: nat, k: int)
    requires
        base + rendered_len(events) <= usize::MAX,
        0 <= k < cost_positions(events, base).len(),
    ensures
        base + 2 <= cost_positions(events, base)[k] < base + rendered_len(events),
    decreases events.len(),
{
    let init = events.drop_last();
    if k < cost_positions(init, base).len() {
        lemma_positions_bound(init, base, k);
    }
}

/// Costs are where they were when more events follow in the sink.
proof fn lemma_costs_at_prefix(sink: Seq<Event>, more: Seq<Event>, positions: Seq<usize>)
    requires
        forall|k: int| 0 <= k < positions.len() ==> positions[k] < sink.len(),
    ensures
        costs_at(sink + more, positions) == costs_at(sink, positions),
    decreases positions.len(),
{
    if positions.len() > 0 {
        lemma_costs_at_prefix(sink, more, positions.drop_last());
        let last = positions.last() as int;
        assert((sink + more)[last] == sink[last]);
    }
}

/// The costs written for a stream whose running block costs `cost`: one point
/// for every event of the blocks that have ended, less what is written
/// nowhere, and `cost` if a cost waits.
proof fn lemma_costs_written(
    used: u32,
    limit: u32,
    sink: Seq<Event>,
    events: Seq<Event>,
    cost: i64,
)
    requires
        fits(sink, events),
    ensures
        costs_at(sink + written(used, limit, events, cost), cost_positions(events, sink.len()))
            == events.len() - open_cost(events) - unpaid(events) + cost * openers(
            open_events(events),
        ),
    decreases events.len(),
{
    if events.len() == 0 {
        assert(cost * 0 == 0) by (nonlinear_arith);
    } else {
        let init = events.drop_last();
        let last = events.last();
        let base = sink.len();
        let opens: int = if last.opens_block() {
            1
        } else {
            0
        };
        let before: i64 = if last.is_boundary() {
            (open_cost(init) + 1) as i64
        } else {
            cost
        };
        lemma_open_cost_bound(init);
        lemma_written_len(used, limit, init, before);
        lemma_costs_written(used, limit, sink, init, before);
        lemma_one_waiting(init);
        let head = sink + written(used, limit, init, before);
        let tail = emitted(used, limit, last, cost);
        let all = sink + written(used, limit, events, cost);
        let waiting = openers(open_events(init)) as int;
        if last.is_boundary() {
            lemma_rendered_single(used, limit, last, cost);
            lemma_openers_push(Seq::empty(), last);
            let count = open_cost(init) + 1;
            assert(count * waiting == (if waiting == 0 {
                0
            } else {
                count
            })) by (nonlinear_arith)
                requires
                    waiting == 0 || waiting == 1,
            ;
            assert(cost * opens == (if last.opens_block() {
                cost as int
            } else {
                0
            })) by (nonlinear_arith)
                requires
                    opens == 0 || opens == 1,
                    opens == 1 <==> last.opens_block(),
            ;
        } else {
            assert(open_events(events).drop_last() =~= open_events(init));
            lemma_openers_push(open_events(init), last);
        }
        assert(all =~= head + tail);
        let earlier = cost_positions(init, base);
        assert forall|k: int| 0 <= k < earlier.len() implies earlier[k] < head.len() by {
            lemma_positions_bound(init, base, k);
        }
        lemma_costs_at_prefix(head, tail, earlier);
        if last.opens_block() {
            let slot = (base + rendered_len(init) + 2) as int;
            assert(cost_positions(events, base).drop_last() =~= earlier);
            assert(all[slot] == tail[2]);
        }
    }
}

/// A stream has its first costs where a stream that it begins with has its
/// costs.
proof fn lemma_positions_prefix(events: Seq<Event>, n: int, base: nat, j: int)
    requires
        0 <= n <= events.len(),
        0 <= j < cost_positions(events.take(n), base).len(),
    ensures
        j < cost_positions(events, base).len(),
        cost_positions(events, base)[j] == cost_positions(events.take(n), base)[j],
    decreases events.len(),
{
    if n == events.len() {
        assert(events.take(n) =~= events);
    } else {
        let init = events.drop_last();
        assert(init.take(n) =~= events.take(n));
        lemma_positions_prefix(init, n, base, j);
    }
}

/// The costs that wait are the last of the costs written so far.
proof fn lemma_waiting_is_suffix(
    used: u32,
    limit: u32,
    base: nat,
    events: Seq<Event>,
    k: int,
)
    requires
        0 <= k < cost_positions(
            open_events(events),
            base + settled(used, limit, events).len(),
        ).len(),
    ensures
        ({
            let waiting = cost_positions(
                open_events(events),
                base + settled(used, limit, events).len(),
            );
            let all = cost_positions(events, base);
            &&& waiting.len() <= all.len()
            &&& waiting[k] == all[all.len() - waiting.len() + k]
        }),
    decreases events.len(),
{
    if events.len() > 0 {
        let init = events.drop_last();
        let last = events.last();
        lemma_written_len(used, limit, init, 0);
        lemma_written_len(used, limit, events, 0);
        if last.is_boundary() {
            assert(seq![last].drop_last() =~= Seq::<Event>::empty());
            assert(cost_positions(
                Seq::<Event>::empty(),
                base + settled(used, limit, events).len(),
            ) =~= Seq::<usize>::empty());
            assert(openers(Seq::<Event>::empty()) == 0);
        } else {
            assert(open_events(events).drop_last() =~= open_events(init));
            let before = cost_positions(
                open_events(init),
                base + settled(used, limit, init).len(),
            );
            if k < before.len() {
                lemma_waiting_is_suffix(used, limit, base, init, k);
            } else if before.len() > 0 {
                lemma_waiting_is_suffix(used, limit, base, init, 0);
            }
        }
    }
}

/// Noted positions. Every position that the transducer notes for a cost
/// inside a function body is one of [`cost_positions`] of the body: a cost
/// stands two events behind each event that opens a block, in what is written
/// for the body.
pub proof fn law_noted_positions(
    used: u32,
    limit: u32,
    sink: Seq<Event>,
    events: Seq<Event>,
    n: int,
    k: int,
)
    requires
        within_function(events),
        fits(sink, events),
        0 <= n <= events.len(),
        0 <= k < run(MeteringState::fresh(used, limit), sink, events.take(n)).state.slots.len(),
    ensures
        cost_positions(events, sink.len()).contains(
            run(MeteringState::fresh(used, limit), sink, events.take(n)).state.slots[k],
        ),
        cost_positions(events, sink.len()).len() == openers(events),
{
    let so_far = events.take(n);
    lemma_prefix_within(sink, events, n);
    lemma_run_is_midway(used, limit, sink, so_far);
    lemma_waiting_is_suffix(used, limit, sink.len(), so_far, k);
    let waiting = run(MeteringState::fresh(used, limit), sink, so_far).state.slots;
    let written = cost_positions(so_far, sink.len());
    let j = written.len() - waiting.len() + k;
    lemma_positions_prefix(events, n, sink.len(), j);
    assert(cost_positions(events, sink.len())[j] == waiting[k]);
    lemma_cost_positions_len(events, sink.len());
}

/// Monotone charging. At the end of a function body, before a last charging
/// sequence is taken off, the costs in the sink add up to the number of events
/// fed, less [`unpaid`]: the points that were written nowhere. No point is
/// written twice. Where a cost waits at every boundary, only the point of
/// `FunctionBegin` is written nowhere: the costs add up to the events behind
/// `FunctionBegin`, `FunctionEnd` included, each paid for once and a boundary
/// event by the block that it ends. Behind a body that ends in an owned `End`
/// the point of `FunctionEnd` goes with the sequence that is taken off, and
/// the costs that stay add up to the events of the body.
pub proof fn law_monotone_charging(
    used: u32,
    limit: u32,
    sink: Seq<Event>,
    index: u32,
    body: Seq<Event>,
)
    requires
        within_function(body),
        fits(sink, seq![Event::Internal(InternalEvent::FunctionBegin(index))] + body),
    ensures
        ({
            let events = seq![Event::Internal(InternalEvent::FunctionBegin(index))] + body;
            let all = events.push(function_end());
            let end = run(MeteringState::fresh(used, limit), sink, all);
            let full = sink + rewritten(used, limit, events);
            let points = costs_at(full, cost_positions(events, sink.len()));
            &&& end.sink == stripped(full).push(function_end())
            &&& points == all.len() - unpaid(all)
            &&& always_waiting(all) ==> points == body.len() + 1
            &&& body.len() > 0 && body.last() == Event::WasmOwned(Operator::End) ==> costs_at(
                end.sink,
                cost_positions(events.drop_last(), sink.len()),
            ) == points - 1
        }),
{
    let begin = Event::Internal(InternalEvent::FunctionBegin(index));
    let events = seq![begin] + body;
    let all = events.push(function_end());
    assert forall|i: int| 0 <= i < events.len() implies !(#[trigger] events[i]).is_function_end(
    ) by {
        if i > 0 {
            assert(events[i] == body[i - 1]);
        }
    }
    assert(all.drop_last() =~= events);
    lemma_function_end(used, limit, sink, events);
    lemma_open_cost_bound(events);
    let cost = (open_cost(events) + 1) as i64;
    lemma_costs_written(used, limit, sink, events, cost);
    lemma_one_waiting(events);
    let count = open_cost(events) + 1;
    let waiting = openers(open_events(events)) as int;
    assert(count * waiting == (if waiting == 0 {
        0
    } else {
        count
    })) by (nonlinear_arith)
        requires
            waiting == 0 || waiting == 1,
    ;
    if always_waiting(all) {
        assert(all[0] == begin);
        lemma_always_waiting(all);
    }
    if body.len() > 0 && body.last() == Event::WasmOwned(Operator::End) {
        let init = events.drop_last();
        let last = events.last();
        assert(last == body.last());
        lemma_written_len(used, limit, events, 1);
        lemma_written_len(used, limit, init, (open_cost(init) + 1) as i64);
        lemma_rendered_single(used, limit, last, 1);
        let full = sink + rewritten(used, limit, events);
        let head = sink + rewritten(used, limit, init);
        let kept = head.push(last);
        assert(full =~= kept + prelude(used, limit, 1));
        assert(full[full.len() - PRELUDE_LEN - 1] == last);
        assert(full.take(full.len() - PRELUDE_LEN) =~= kept);
        let earlier = cost_positions(init, sink.len());
        assert forall|k: int| 0 <= k < earlier.len() implies earlier[k] < head.len() by {
            lemma_positions_bound(init, sink.len(), k);
        }
        let end = run(MeteringState::fresh(used, limit), sink, all);
        assert(full =~= head + (seq![last] + prelude(used, limit, 1)));
        assert(end.sink =~= head + seq![last, function_end()]);
        lemma_costs_at_prefix(head, seq![last] + prelude(used, limit, 1), earlier);
        lemma_costs_at_prefix(head, seq![last, function_end()], earlier);
        assert(cost_positions(events, sink.len()).drop_last() =~= earlier);
        let slot = (sink.len() + rendered_len(init) + 2) as int;
        assert(full[slot] == prelude(used, limit, 1)[1]);
    }
}

/// Trailing strip. Ten events are taken off at the end of a function body that
/// ends in an owned `End`: they are the charging sequence behind that `End`,
/// which no code can reach, and the sink holds what was written up to that
/// `End`, the `End`, and `FunctionEnd`. After any other body nothing is taken
/// off, wherever the check at the end of the function does not mistake an
/// `End` further up for the last event of the body.
pub proof fn law_trailing_strip(used: u32, limit: u32, sink: Seq<Event>, events: Seq<Event>)
    requires
        within_function(events),
        fits(sink, events),
        strips(sink + rewritten(used, limit, events)) ==> events.len() > 0 && events.last()
            == Event::WasmOwned(Operator::End),
    ensures
        ({
            let end = run(MeteringState::fresh(used, limit), sink, events.push(function_end()));
            if events.len() > 0 && events.last() == Event::WasmOwned(Operator::End) {
                &&& strips(sink + rewritten(used, limit, events))
                &&& end.sink == (sink + rewritten(used, limit, events.drop_last())).push(
                    events.last(),
                ).push(function_end())
            } else {
                end.sink == (sink + rewritten(used, limit, events)).push(function_end())
            }
        }),
{
    lemma_function_end(used, limit, sink, events);
    if events.len() > 0 && events.last() == Event::WasmOwned(Operator::End) {
        let init = events.drop_last();
        let last = events.last();
        lemma_written_len(used, limit, events, 1);
        let full = sink + rewritten(used, limit, events);
        let kept = (sink + rewritten(used, limit, init)).push(last);
        lemma_rendered_single(used, limit, last, 1);
        assert(full =~= kept + prelude(used, limit, 1));
        assert(full[full.len() - PRELUDE_LEN - 1] == last);
        assert(full.take(full.len() - PRELUDE_LEN) =~= kept);
    }
}

} // verus!
