//! What the sink looks like at the end of a function body: where the events
//! of the body stand, where the charging sequences stand, and that nothing
//! else stands in it.
//!
//! A charging sequence begins with a read of the points used and a cost. The
//! laws here tell the sequences from the events of the body by these two
//! events, so they speak of bodies that do not read the points used
//! themselves: bodies of operators, as a decoder emits them.

use crate::event::{Event, InternalEvent, Operator};
use crate::laws::{charged_at, lemma_charged_at_extends};
use crate::metering::{prelude, slot_value, MeteringState, PRELUDE_LEN};
use crate::rewrite::{
    cost_before, emitted, fits, function_end, lemma_function_end, lemma_open_cost_bound,
    lemma_written_len, lemma_written_step, open_cost, openers, rendered_len, rewritten, run,
    within_function, written,
};
use vstd::prelude::*;

verus! {

/// Whether no event of `events` reads the points used.
pub open spec fn leaves_points_alone(used: u32, events: Seq<Event>) -> bool {
    forall|i: int|
        0 <= i < events.len() ==> #[trigger] events[i] != Event::Internal(
            InternalEvent::GetInternal(used),
        )
}

/// Whether the events of `sink` from `at` on look like the begin of a
/// charging sequence: a read of the points used, then a cost.
pub open spec fn looks_like_sequence(used: u32, sink: Seq<Event>, at: int) -> bool {
    &&& 0 <= at
    &&& at + 1 < sink.len()
    &&& sink[at] == Event::Internal(InternalEvent::GetInternal(used))
    &&& slot_value(sink, at + 1) is Some
}

/// `sink` without the windows of ten events that look like a charging
/// sequence, read from the front.
pub open spec fn without_sequences(used: u32, sink: Seq<Event>) -> Seq<Event>
    decreases sink.len(),
{
    if sink.len() == 0 {
        Seq::empty()
    } else if sink.len() >= PRELUDE_LEN && looks_like_sequence(used, sink, 0) {
        without_sequences(used, sink.skip(PRELUDE_LEN as int))
    } else {
        seq![sink[0]] + without_sequences(used, sink.skip(1))
    }
}

/// Where the event `j` of `events` stands in what is written for `events`:
/// behind the events before it and their charging sequences.
pub open spec fn position_of(events: Seq<Event>, j: int) -> int {
    j + PRELUDE_LEN * openers(events.take(j))
}

proof fn lemma_without_sequence(used: u32, limit: u32, cost: i64, rest: Seq<Event>)
    ensures
        without_sequences(used, prelude(used, limit, cost) + rest) == without_sequences(
            used,
            rest,
        ),
{
    let all = prelude(used, limit, cost) + rest;
    assert(all[0] == prelude(used, limit, cost)[0]);
    assert(all[1] == prelude(used, limit, cost)[1]);
    assert(looks_like_sequence(used, all, 0));
    assert(all.skip(PRELUDE_LEN as int) =~= rest);
}

proof fn lemma_without_event(used: u32, ev: Event, rest: Seq<Event>)
    requires
        ev != Event::Internal(InternalEvent::GetInternal(used)),
    ensures
        without_sequences(used, seq![ev] + rest) == seq![ev] + without_sequences(used, rest),
{
    let all = seq![ev] + rest;
    assert(all[0] == ev);
    assert(!looks_like_sequence(used, all, 0));
    assert(all.skip(1) =~= rest);
}

proof fn lemma_without_emitted(used: u32, limit: u32, ev: Event, cost: i64, rest: Seq<Event>)
    requires
        ev != Event::Internal(InternalEvent::GetInternal(used)),
    ensures
        without_sequences(used, emitted(used, limit, ev, cost) + rest) == seq![ev]
            + without_sequences(used, rest),
{
    if ev.opens_block() {
        let behind = prelude(used, limit, cost) + rest;
        lemma_without_sequence(used, limit, cost, rest);
        lemma_without_event(used, ev, behind);
        assert(emitted(used, limit, ev, cost) + rest =~= seq![ev] + behind);
    } else {
        lemma_without_event(used, ev, rest);
    }
}

proof fn lemma_without_written(
    used: u32,
    limit: u32,
    events: Seq<Event>,
    cost: i64,
    rest: Seq<Event>,
)
    requires
        leaves_points_alone(used, events),
    ensures
        without_sequences(used, written(used, limit, events, cost) + rest) == events
            + without_sequences(used, rest),
    decreases events.len(),
{
    if events.len() == 0 {
        assert(written(used, limit, events, cost) + rest =~= rest);
        assert(events + without_sequences(used, rest) =~= without_sequences(used, rest));
    } else {
        let init = events.drop_last();
        let last = events.last();
        assert(leaves_points_alone(used, init)) by {
            assert forall|i: int| 0 <= i < init.len() implies #[trigger] init[i] != Event::Internal(
                InternalEvent::GetInternal(used),
            ) by {
                assert(init[i] == events[i]);
            }
        }
        assert(events[events.len() - 1] == last);
        let before = cost_before(events, cost);
        let tail = emitted(used, limit, last, cost);
        lemma_written_step(used, limit, events, cost);
        lemma_without_written(used, limit, init, before, tail + rest);
        lemma_without_emitted(used, limit, last, cost, rest);
        assert(written(used, limit, events, cost) + rest =~= written(used, limit, init, before) + (
        tail + rest));
        assert(events + without_sequences(used, rest) =~= init + (seq![last] + without_sequences(
            used,
            rest,
        )));
    }
}

/// Events kept. Taking the charging sequences out of what is written for a
/// function body gives back the events of the body: the same events, in the
/// same order, each once. It is so for the sink at the end of the function
/// too, where the body ends in an owned `End`: the sink holds what it held,
/// and behind it the events of the body and `FunctionEnd` among charging
/// sequences.
pub proof fn law_events_kept(used: u32, limit: u32, sink: Seq<Event>, events: Seq<Event>)
    requires
        within_function(events),
        fits(sink, events),
        leaves_points_alone(used, events),
    ensures
        without_sequences(used, rewritten(used, limit, events)) == events,
        events.len() > 0 && events.last() == Event::WasmOwned(Operator::End) ==> ({
            let end = run(MeteringState::fresh(used, limit), sink, events.push(function_end()));
            &&& end.sink.len() >= sink.len()
            &&& end.sink.take(sink.len() as int) == sink
            &&& without_sequences(used, end.sink.skip(sink.len() as int)) == events.push(
                function_end(),
            )
        }),
{
    let none = Seq::<Event>::empty();
    lemma_without_written(used, limit, events, (open_cost(events) + 1) as i64, none);
    assert(rewritten(used, limit, events) + none =~= rewritten(used, limit, events));
    assert(events + without_sequences(used, none) =~= events);
    if events.len() > 0 && events.last() == Event::WasmOwned(Operator::End) {
        let init = events.drop_last();
        let last = events.last();
        let end = run(MeteringState::fresh(used, limit), sink, events.push(function_end()));
        lemma_stripped_sink(used, limit, sink, events);
        let kept = rewritten(used, limit, init);
        let closing = seq![last, function_end()];
        assert(end.sink.take(sink.len() as int) =~= sink);
        assert(end.sink.skip(sink.len() as int) =~= kept + closing);
        assert(leaves_points_alone(used, init)) by {
            assert forall|i: int| 0 <= i < init.len() implies #[trigger] init[i] != Event::Internal(
                InternalEvent::GetInternal(used),
            ) by {
                assert(init[i] == events[i]);
            }
        }
        lemma_without_written(used, limit, init, (open_cost(init) + 1) as i64, closing);
        lemma_without_event(used, function_end(), none);
        lemma_without_event(used, last, seq![function_end()]);
        assert(seq![function_end()] + none =~= seq![function_end()]);
        assert(seq![function_end()] + without_sequences(used, none) =~= seq![function_end()]);
        assert(seq![last] + seq![function_end()] =~= closing);
        assert(without_sequences(used, closing) == closing);
        assert(init + closing =~= events.push(function_end()));
    }
}

/// What is written for a stream does not end in a read of the points used.
proof fn lemma_written_last(used: u32, limit: u32, events: Seq<Event>, cost: i64)
    requires
        events.len() > 0,
        leaves_points_alone(used, events),
    ensures
        written(used, limit, events, cost).len() > 0,
        written(used, limit, events, cost).last() != Event::Internal(
            InternalEvent::GetInternal(used),
        ),
{
    let last = events.last();
    assert(events[events.len() - 1] == last);
    lemma_written_step(used, limit, events, cost);
    let head = written(used, limit, events.drop_last(), cost_before(events, cost));
    let tail = emitted(used, limit, last, cost);
    assert((head + tail).last() == tail.last());
    if last.opens_block() {
        assert(tail.last() == prelude(used, limit, cost)[9]);
    }
}

proof fn lemma_leaves_points_alone(used: u32, events: Seq<Event>)
    requires
        events.len() > 0,
        leaves_points_alone(used, events),
    ensures
        leaves_points_alone(used, events.drop_last()),
        events.last() != Event::Internal(InternalEvent::GetInternal(used)),
{
    let init = events.drop_last();
    assert forall|i: int| 0 <= i < init.len() implies #[trigger] init[i] != Event::Internal(
        InternalEvent::GetInternal(used),
    ) by {
        assert(init[i] == events[i]);
    }
    assert(events[events.len() - 1] == events.last());
}

/// An event stands where it stood when the stream goes on.
proof fn lemma_position_before(events: Seq<Event>, j: int)
    requires
        0 <= j < events.len(),
    ensures
        position_of(events, j) == position_of(events.drop_last(), j),
        j == events.len() - 1 ==> position_of(events, j) == rendered_len(events.drop_last()),
{
    assert(events.take(j) =~= events.drop_last().take(j));
    if j == events.len() - 1 {
        assert(events.take(j) =~= events.drop_last());
    }
}

/// Every event of a stream stands at its position in what is written for the
/// stream, and behind an event that opens a block a charging sequence.
proof fn lemma_event_written(used: u32, limit: u32, events: Seq<Event>, cost: i64, j: int)
    requires
        0 <= j < events.len(),
        events.len() < i64::MAX,
        cost >= 1,
    ensures
        ({
            let out = written(used, limit, events, cost);
            let at = position_of(events, j);
            &&& 0 <= at < out.len()
            &&& out[at] == events[j]
            &&& events[j].opens_block() ==> charged_at(used, limit, out, at + 2)
                && looks_like_sequence(used, out, at + 1)
        }),
    decreases events.len(),
{
    let init = events.drop_last();
    let last = events.last();
    let before = cost_before(events, cost);
    lemma_open_cost_bound(init);
    lemma_written_step(used, limit, events, cost);
    lemma_written_len(used, limit, init, before);
    lemma_position_before(events, j);
    let head = written(used, limit, init, before);
    let tail = emitted(used, limit, last, cost);
    let out = head + tail;
    let at = position_of(events, j);
    if j < init.len() {
        lemma_event_written(used, limit, init, before, j);
        assert(out[at] == head[at]);
        assert(init[j] == events[j]);
        if events[j].opens_block() {
            lemma_charged_at_extends(used, limit, head, tail, at + 2);
            assert(out[at + 1] == head[at + 1]);
            assert(out[at + 2] == head[at + 2]);
        }
    } else {
        assert(events[j] == last);
        assert(out[at] == tail[0]);
        if last.opens_block() {
            assert(out[at + 1] == tail[1]);
            assert(out[at + 2] == tail[2]);
            assert(out.subrange(at + 1, at + 1 + PRELUDE_LEN) =~= prelude(used, limit, cost));
        }
    }
}

/// What looks like the begin of a charging sequence is one: it stands right
/// behind an event of the stream that opens a block, and it is whole, with a
/// cost of at least one.
proof fn lemma_sequence_written(used: u32, limit: u32, events: Seq<Event>, cost: i64, at: int)
    requires
        leaves_points_alone(used, events),
        events.len() < i64::MAX,
        cost >= 1,
        looks_like_sequence(used, written(used, limit, events, cost), at),
    ensures
        charged_at(used, limit, written(used, limit, events, cost), at + 1),
        exists|j: int|
            0 <= j < events.len() && events[j].opens_block() && at == #[trigger] position_of(
                events,
                j,
            ) + 1,
    decreases events.len(),
{
    if events.len() == 0 {
        assert(written(used, limit, events, cost).len() == 0);
    } else {
        let init = events.drop_last();
        let last = events.last();
        let before = cost_before(events, cost);
        lemma_open_cost_bound(init);
        lemma_leaves_points_alone(used, events);
        lemma_written_step(used, limit, events, cost);
        lemma_written_len(used, limit, init, before);
        let head = written(used, limit, init, before);
        let tail = emitted(used, limit, last, cost);
        let out = head + tail;
        if at + 1 < head.len() {
            assert(out[at] == head[at]);
            assert(out[at + 1] == head[at + 1]);
            lemma_sequence_written(used, limit, init, before, at);
            lemma_charged_at_extends(used, limit, head, tail, at + 1);
            let j = choose|j: int|
                0 <= j < init.len() && init[j].opens_block() && at == #[trigger] position_of(
                    init,
                    j,
                ) + 1;
            lemma_position_before(events, j);
            assert(events[j] == init[j]);
            assert(at == position_of(events, j) + 1);
        } else if at + 1 == head.len() {
            assert(out[at] == head[at]);
            lemma_written_last(used, limit, init, before);
        } else {
            let offset = at - head.len();
            assert(out[at] == tail[offset]);
            assert(out[at + 1] == tail[offset + 1]);
            assert(tail[0] == last);
            assert(last.opens_block());
            let sequence = prelude(used, limit, cost);
            assert(forall|k: int| 1 <= k < tail.len() ==> tail[k] == sequence[k - 1]);
            assert(offset == 1);
            let j = events.len() - 1;
            lemma_position_before(events, j);
            assert(events[j] == last);
            assert(out[at - 1] == tail[0]);
            assert(out.subrange(at, at + PRELUDE_LEN) =~= sequence);
            assert(at == position_of(events, j) + 1);
        }
    }
}

/// Events in place. In what is written for a function body every event of the
/// body stands at [`position_of`] it: behind the events before it and their
/// charging sequences. Right behind an event that opens a block stands a
/// whole charging sequence with a cost of at least one.
pub proof fn law_events_in_place(used: u32, limit: u32, events: Seq<Event>, j: int)
    requires
        events.len() < i64::MAX,
        0 <= j < events.len(),
    ensures
        ({
            let out = rewritten(used, limit, events);
            let at = position_of(events, j);
            &&& 0 <= at < out.len()
            &&& out[at] == events[j]
            &&& events[j].opens_block() ==> charged_at(used, limit, out, at + 2)
                && looks_like_sequence(used, out, at + 1)
        }),
{
    lemma_open_cost_bound(events);
    lemma_event_written(used, limit, events, (open_cost(events) + 1) as i64, j);
}

/// Sequences by their looks. In what is written for a function body that does
/// not read the points used, a read of the points used with a cost behind it
/// is the begin of a charging sequence and nothing else: it stands right
/// behind an event of the body that opens a block, the sequence is whole, and
/// its cost is at least one. So no cost is left at zero, no sequence stands
/// behind an event that opens no block, and no two sequences stand side by
/// side. It is so for the sink at the end of the function too, where the
/// body ends in an owned `End`; the event before the sequence is then not
/// that `End`.
pub proof fn law_sequences_by_looks(
    used: u32,
    limit: u32,
    sink: Seq<Event>,
    events: Seq<Event>,
    at: int,
)
    requires
        within_function(events),
        fits(sink, events),
        leaves_points_alone(used, events),
    ensures
        looks_like_sequence(used, rewritten(used, limit, events), at) ==> charged_at(
            used,
            limit,
            rewritten(used, limit, events),
            at + 1,
        ) && exists|j: int|
            0 <= j < events.len() && events[j].opens_block() && at == #[trigger] position_of(
                events,
                j,
            ) + 1,
        events.len() > 0 && events.last() == Event::WasmOwned(Operator::End) ==> ({
            let end = run(MeteringState::fresh(used, limit), sink, events.push(function_end()));
            let out = end.sink.skip(sink.len() as int);
            looks_like_sequence(used, out, at) ==> charged_at(used, limit, out, at + 1)
                && exists|j: int|
                0 <= j < events.len() - 1 && events[j].opens_block() && at
                    == #[trigger] position_of(events, j) + 1
        }),
{
    lemma_open_cost_bound(events);
    if looks_like_sequence(used, rewritten(used, limit, events), at) {
        lemma_sequence_written(used, limit, events, (open_cost(events) + 1) as i64, at);
    }
    if events.len() > 0 && events.last() == Event::WasmOwned(Operator::End) {
        let init = events.drop_last();
        let last = events.last();
        let end = run(MeteringState::fresh(used, limit), sink, events.push(function_end()));
        let out = end.sink.skip(sink.len() as int);
        lemma_stripped_sink(used, limit, sink, events);
        let kept = rewritten(used, limit, init);
        let closing = seq![last, function_end()];
        assert(out =~= kept + closing);
        if looks_like_sequence(used, out, at) {
            lemma_leaves_points_alone(used, events);
            lemma_open_cost_bound(init);
            if at + 1 < kept.len() {
                assert(out[at] == kept[at]);
                assert(out[at + 1] == kept[at + 1]);
                lemma_sequence_written(used, limit, init, (open_cost(init) + 1) as i64, at);
                lemma_charged_at_extends(used, limit, kept, closing, at + 1);
                let j = choose|j: int|
                    0 <= j < init.len() && init[j].opens_block() && at == #[trigger] position_of(
                        init,
                        j,
                    ) + 1;
                lemma_position_before(events, j);
                assert(events[j] == init[j]);
                assert(at == position_of(events, j) + 1);
            } else if at + 1 == kept.len() {
                assert(out[at + 1] == closing[0]);
            } else {
                assert(out[at] == closing[at - kept.len()]);
            }
        }
    }
}

/// The sink at the end of a function body that ends in an owned `End`.
proof fn lemma_stripped_sink(used: u32, limit: u32, sink: Seq<Event>, events: Seq<Event>)
    requires
        within_function(events),
        fits(sink, events),
        events.len() > 0,
        events.last() == Event::WasmOwned(Operator::End),
    ensures
        run(MeteringState::fresh(used, limit), sink, events.push(function_end())).sink == sink + (
        rewritten(used, limit, events.drop_last()) + seq![events.last(), function_end()]),
{
    let init = events.drop_last();
    let last = events.last();
    lemma_function_end(used, limit, sink, events);
    lemma_written_len(used, limit, events, 1);
    lemma_written_step(used, limit, events, 1);
    let full = sink + rewritten(used, limit, events);
    let kept = (sink + rewritten(used, limit, init)).push(last);
    assert(full =~= kept + prelude(used, limit, 1));
    assert(full[full.len() - PRELUDE_LEN - 1] == last);
    assert(full.take(full.len() - PRELUDE_LEN) =~= kept);
    assert(kept.push(function_end()) =~= sink + (rewritten(used, limit, init) + seq![
        last,
        function_end(),
    ]));
}

} // verus!
