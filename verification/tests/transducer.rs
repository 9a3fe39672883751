use wasm_metering::event::{BlockType, BreakpointHandler, Event, InternalEvent, Operator};
use wasm_metering::event_trace::EventTrace;
use wasm_metering::metering::{Metering, MeteringError};
use wasm_metering::sink::EventSink;

const USED: u32 = 3;
const LIMIT: u32 = 4;

fn begin() -> Event {
    Event::Internal(InternalEvent::FunctionBegin(0))
}

fn end_of_function() -> Event {
    Event::Internal(InternalEvent::FunctionEnd)
}

fn prelude(cost: i64) -> Vec<Event> {
    vec![
        Event::Internal(InternalEvent::GetInternal(USED)),
        Event::WasmOwned(Operator::I64Const { value: cost }),
        Event::WasmOwned(Operator::I64Add),
        Event::Internal(InternalEvent::SetInternal(USED)),
        Event::Internal(InternalEvent::GetInternal(USED)),
        Event::Internal(InternalEvent::GetInternal(LIMIT)),
        Event::WasmOwned(Operator::I64GtU),
        Event::WasmOwned(Operator::If { ty: BlockType::Empty }),
        Event::Internal(InternalEvent::Breakpoint(BreakpointHandler::ExecutionLimitExceeded)),
        Event::WasmOwned(Operator::End),
    ]
}

fn contents(sink: &EventSink) -> Vec<Event> {
    let mut events = Vec::new();
    let mut i = 0;
    while i < sink.len() {
        events.push(sink.get(i).unwrap());
        i += 1;
    }
    events
}

fn rewrite(events: &[Event]) -> Vec<Event> {
    let mut metering = Metering::new(USED, LIMIT);
    let mut sink = EventSink::new();
    for ev in events {
        assert_eq!(metering.feed_event(*ev, &mut sink), Ok(()));
    }
    contents(&sink)
}

fn join(parts: Vec<Vec<Event>>) -> Vec<Event> {
    let mut all = Vec::new();
    for part in parts {
        all.extend(part);
    }
    all
}

fn costs(events: &[Event]) -> Vec<i64> {
    let mut found = Vec::new();
    let mut i = 1;
    while i < events.len() {
        if events[i - 1] == Event::Internal(InternalEvent::GetInternal(USED)) {
            if let Event::WasmOwned(Operator::I64Const { value }) = events[i] {
                found.push(value);
            }
        }
        i += 1;
    }
    found
}

#[test]
fn function_begin_is_followed_by_a_charging_sequence() {
    let out = rewrite(&[begin()]);
    assert_eq!(out, join(vec![vec![begin()], prelude(0)]));
}

#[test]
fn empty_function_body_keeps_its_charging_sequence() {
    // The event before the last ten is `FunctionBegin`, no `End`: nothing is
    // taken off, and the sequence is charged with `FunctionEnd`.
    let out = rewrite(&[begin(), end_of_function()]);
    assert_eq!(out, join(vec![vec![begin()], prelude(1), vec![end_of_function()]]));
}

#[test]
fn straight_line_body_with_a_lent_end() {
    let body = [
        begin(),
        Event::Wasm(Operator::I32Const { value: 1 }),
        Event::Wasm(Operator::Drop),
        Event::Wasm(Operator::End),
        end_of_function(),
    ];
    let out = rewrite(&body);
    let expected = join(vec![
        vec![begin()],
        prelude(3),
        vec![
            Event::Wasm(Operator::I32Const { value: 1 }),
            Event::Wasm(Operator::Drop),
            Event::Wasm(Operator::End),
        ],
        prelude(1),
        vec![end_of_function()],
    ]);
    assert_eq!(out, expected);
}

#[test]
fn straight_line_body_with_an_owned_end() {
    let body = [
        begin(),
        Event::WasmOwned(Operator::I32Const { value: 1 }),
        Event::WasmOwned(Operator::Drop),
        Event::WasmOwned(Operator::End),
        end_of_function(),
    ];
    let out = rewrite(&body);
    let expected = join(vec![
        vec![begin()],
        prelude(3),
        vec![
            Event::WasmOwned(Operator::I32Const { value: 1 }),
            Event::WasmOwned(Operator::Drop),
            Event::WasmOwned(Operator::End),
            end_of_function(),
        ],
    ]);
    assert_eq!(out, expected);
}

#[test]
fn if_else_end_gets_three_charging_sequences() {
    let cond = Event::WasmOwned(Operator::I32Const { value: 1 });
    let if_ = Event::WasmOwned(Operator::If { ty: BlockType::Empty });
    let nop = Event::WasmOwned(Operator::Nop);
    let else_ = Event::WasmOwned(Operator::Else);
    let end = Event::WasmOwned(Operator::End);
    let out = rewrite(&[begin(), cond, if_, nop, else_, nop, end, end_of_function()]);
    let expected = join(vec![
        vec![begin()],
        prelude(2),
        vec![cond, if_],
        prelude(2),
        vec![nop, else_],
        prelude(2),
        vec![nop, end, end_of_function()],
    ]);
    assert_eq!(out, expected);
    assert_eq!(out.len(), 38);
    assert_eq!(costs(&out), vec![2, 2, 2]);
}

#[test]
fn if_else_end_lent_by_the_decoder_keeps_the_last_charging_sequence() {
    let cond = Event::Wasm(Operator::I32Const { value: 1 });
    let if_ = Event::Wasm(Operator::If { ty: BlockType::Empty });
    let nop = Event::Wasm(Operator::Nop);
    let else_ = Event::Wasm(Operator::Else);
    let end = Event::Wasm(Operator::End);
    let out = rewrite(&[begin(), cond, if_, nop, else_, nop, end, end_of_function()]);
    let expected = join(vec![
        vec![begin()],
        prelude(2),
        vec![cond, if_],
        prelude(2),
        vec![nop, else_],
        prelude(2),
        vec![nop, end],
        prelude(1),
        vec![end_of_function()],
    ]);
    assert_eq!(out, expected);
}

#[test]
fn loop_ends_the_block_before_it() {
    // The sequence inside the loop pays for the branch alone, once in every
    // round; `FunctionBegin` pays for the `Loop`.
    let loop_ = Event::WasmOwned(Operator::Loop { ty: BlockType::Empty });
    let br = Event::WasmOwned(Operator::Br { relative_depth: 0 });
    let end = Event::WasmOwned(Operator::End);
    let out = rewrite(&[begin(), loop_, br, end, end, end_of_function()]);
    let expected = join(vec![
        vec![begin()],
        prelude(1),
        vec![loop_],
        prelude(1),
        vec![br, end],
        prelude(1),
        vec![end, end_of_function()],
    ]);
    assert_eq!(out, expected);
}

#[test]
fn block_is_charged_with_what_surrounds_it() {
    let block = Event::Wasm(Operator::Block { ty: BlockType::I32 });
    let nop = Event::Wasm(Operator::Nop);
    let end = Event::Wasm(Operator::End);
    let out = rewrite(&[begin(), block, nop, end]);
    let expected = join(vec![vec![begin()], prelude(3), vec![block, nop, end], prelude(0)]);
    assert_eq!(out, expected);
}

#[test]
fn every_terminator_closes_the_block() {
    let terminators = [
        Operator::End,
        Operator::If { ty: BlockType::Empty },
        Operator::Else,
        Operator::Br { relative_depth: 1 },
        Operator::BrIf { relative_depth: 1 },
        Operator::BrTable { table: 7 },
        Operator::Return,
    ];
    for op in terminators {
        assert!(op.ends_block());
        let out = rewrite(&[begin(), Event::Wasm(Operator::Nop), Event::Wasm(op)]);
        assert_eq!(out[2], Event::WasmOwned(Operator::I64Const { value: 2 }));
    }
    let loop_ = Operator::Loop { ty: BlockType::Empty };
    assert!(!loop_.ends_block());
    assert!(!Event::Wasm(loop_).ends_block());
    assert!(Event::Wasm(loop_).starts_block());
    let out = rewrite(&[begin(), Event::Wasm(Operator::Nop), Event::Wasm(loop_)]);
    assert_eq!(out[2], Event::WasmOwned(Operator::I64Const { value: 2 }));
    let others = [
        Operator::Unreachable,
        Operator::Nop,
        Operator::Block { ty: BlockType::Empty },
        Operator::Call { function_index: 0 },
        Operator::Drop,
        Operator::I32Const { value: 0 },
        Operator::I64Const { value: 0 },
        Operator::I64Add,
        Operator::I64GtU,
        Operator::Other { id: 9 },
    ];
    for op in others {
        assert!(!op.ends_block());
        assert!(!Event::Wasm(op).ends_block());
        assert!(!Event::WasmOwned(op).starts_block());
        let out = rewrite(&[begin(), Event::Wasm(Operator::Nop), Event::Wasm(op)]);
        assert_eq!(out[2], Event::WasmOwned(Operator::I64Const { value: 0 }));
    }
}

#[test]
fn every_opener_is_followed_by_a_charging_sequence() {
    let openers = [
        Operator::Loop { ty: BlockType::Empty },
        Operator::End,
        Operator::If { ty: BlockType::Empty },
        Operator::Else,
        Operator::BrIf { relative_depth: 0 },
    ];
    for op in openers {
        assert!(op.starts_block());
        let out = rewrite(&[Event::Wasm(op)]);
        assert_eq!(out, join(vec![vec![Event::Wasm(op)], prelude(0)]));
    }
    let others = [
        Operator::Unreachable,
        Operator::Nop,
        Operator::Block { ty: BlockType::Empty },
        Operator::Br { relative_depth: 0 },
        Operator::BrTable { table: 0 },
        Operator::Return,
        Operator::Call { function_index: 0 },
        Operator::Drop,
        Operator::Other { id: 1 },
    ];
    for op in others {
        assert!(!op.starts_block());
        let out = rewrite(&[Event::WasmOwned(op)]);
        assert_eq!(out, vec![Event::WasmOwned(op)]);
    }
}

#[test]
fn other_internal_events_pass_through_and_are_counted() {
    let get = Event::Internal(InternalEvent::GetInternal(9));
    let set = Event::Internal(InternalEvent::SetInternal(9));
    let stop = Event::Internal(InternalEvent::Breakpoint(BreakpointHandler::Other { id: 1 }));
    let end = Event::WasmOwned(Operator::End);
    let out = rewrite(&[begin(), get, set, stop, end, end_of_function()]);
    let expected =
        join(vec![vec![begin()], prelude(4), vec![get, set, stop, end, end_of_function()]]);
    assert_eq!(out, expected);
}

#[test]
fn code_behind_a_branch_is_not_charged() {
    let br = Event::Wasm(Operator::Br { relative_depth: 0 });
    let nop = Event::Wasm(Operator::Nop);
    let ret = Event::Wasm(Operator::Return);
    let out = rewrite(&[begin(), br, nop, nop, ret, nop, end_of_function()]);
    let expected = join(vec![
        vec![begin()],
        prelude(1),
        vec![br, nop, nop, ret, nop, end_of_function()],
    ]);
    assert_eq!(out, expected);
}

#[test]
fn ten_plain_events_behind_a_charging_sequence_are_taken_off() {
    // The event before the last ten is the `End` of the charging sequence
    // itself: the check at the end of the function cannot tell.
    let nop = Event::Wasm(Operator::Nop);
    let mut body = vec![begin()];
    for _ in 0..10 {
        body.push(nop);
    }
    body.push(end_of_function());
    let out = rewrite(&body);
    assert_eq!(out, join(vec![vec![begin()], prelude(11), vec![end_of_function()]]));
}

#[test]
fn the_sink_keeps_what_it_held_before_the_function() {
    let mut metering = Metering::new(USED, LIMIT);
    let mut sink = EventSink::new();
    let end = Event::WasmOwned(Operator::End);
    for ev in [begin(), end, end_of_function()] {
        assert_eq!(metering.feed_event(ev, &mut sink), Ok(()));
    }
    let first = contents(&sink);
    assert_eq!(first, join(vec![vec![begin()], prelude(1), vec![end, end_of_function()]]));
    let second_begin = Event::Internal(InternalEvent::FunctionBegin(1));
    let nop = Event::Wasm(Operator::Nop);
    for ev in [second_begin, nop, end, end_of_function()] {
        assert_eq!(metering.feed_event(ev, &mut sink), Ok(()));
    }
    let expected = join(vec![
        first,
        vec![second_begin],
        prelude(2),
        vec![nop, end, end_of_function()],
    ]);
    assert_eq!(contents(&sink), expected);
}

#[test]
fn balance_of_charging_sequences() {
    // Openers in the body: If, Else, End, Loop, BrIf, End, End. With
    // `FunctionBegin` that makes eight charging sequences, and the one behind
    // the last `End` is taken off.
    let body = [
        begin(),
        Event::WasmOwned(Operator::If { ty: BlockType::Empty }),
        Event::WasmOwned(Operator::Else),
        Event::WasmOwned(Operator::End),
        Event::WasmOwned(Operator::Loop { ty: BlockType::Empty }),
        Event::WasmOwned(Operator::BrIf { relative_depth: 0 }),
        Event::WasmOwned(Operator::Nop),
        Event::WasmOwned(Operator::End),
        Event::WasmOwned(Operator::End),
        end_of_function(),
    ];
    let out = rewrite(&body);
    assert_eq!(out.len(), body.len() + 10 * (7 + 1 - 1));
    assert_eq!(costs(&out).len(), 7);
    let lent = [
        begin(),
        Event::Wasm(Operator::If { ty: BlockType::Empty }),
        Event::Wasm(Operator::End),
        end_of_function(),
    ];
    let out = rewrite(&lent);
    assert_eq!(out.len(), lent.len() + 10 * (2 + 1));
}

#[test]
fn every_cost_is_positive_at_the_end_of_the_function() {
    let body = [
        begin(),
        Event::Wasm(Operator::Loop { ty: BlockType::Empty }),
        Event::Wasm(Operator::If { ty: BlockType::Empty }),
        Event::Wasm(Operator::Br { relative_depth: 1 }),
        Event::Wasm(Operator::Else),
        Event::Wasm(Operator::End),
        Event::Wasm(Operator::End),
        Event::Wasm(Operator::End),
        end_of_function(),
    ];
    let out = rewrite(&body);
    let found = costs(&out);
    assert_eq!(found, vec![1, 1, 1, 1, 1, 1, 1]);
    assert!(found.iter().all(|cost| *cost >= 1));
}

#[test]
fn costs_add_up_to_the_number_of_events() {
    // No branch out: a cost waits at every boundary, and every event behind
    // `FunctionBegin` is paid for once.
    let body = [
        begin(),
        Event::Wasm(Operator::Nop),
        Event::Wasm(Operator::If { ty: BlockType::Empty }),
        Event::Wasm(Operator::Nop),
        Event::Wasm(Operator::Nop),
        Event::Wasm(Operator::Else),
        Event::Wasm(Operator::Nop),
        Event::Wasm(Operator::End),
        Event::Wasm(Operator::End),
        end_of_function(),
    ];
    let out = rewrite(&body);
    let found = costs(&out);
    assert_eq!(found, vec![2, 3, 2, 1, 1]);
    assert_eq!(found.iter().sum::<i64>(), body.len() as i64 - 1);
}

#[test]
fn a_loop_is_paid_for_before_it_begins() {
    // The `Loop` ends the block of `FunctionBegin`; the branch is all that the
    // sequence inside the loop pays for.
    let body = [
        begin(),
        Event::Wasm(Operator::Loop { ty: BlockType::Empty }),
        Event::Wasm(Operator::Br { relative_depth: 0 }),
        end_of_function(),
    ];
    let out = rewrite(&body);
    assert_eq!(costs(&out), vec![1, 1]);
}

#[test]
fn every_charging_sequence_stands_behind_an_opener() {
    let body = [
        begin(),
        Event::Wasm(Operator::Block { ty: BlockType::Empty }),
        Event::Wasm(Operator::Loop { ty: BlockType::Empty }),
        Event::Wasm(Operator::BrIf { relative_depth: 0 }),
        Event::Wasm(Operator::End),
        Event::Wasm(Operator::Return),
        Event::Wasm(Operator::End),
        Event::Wasm(Operator::End),
        end_of_function(),
    ];
    let out = rewrite(&body);
    let mut found = 0;
    let mut i = 0;
    while i < out.len() {
        if out[i] == Event::Internal(InternalEvent::Breakpoint(
            BreakpointHandler::ExecutionLimitExceeded,
        )) {
            found += 1;
            let start = i - 8;
            let cost = match out[start + 1] {
                Event::WasmOwned(Operator::I64Const { value }) => value,
                _ => panic!("no cost in the charging sequence"),
            };
            assert_eq!(out[start..start + 10].to_vec(), prelude(cost));
            match out[start - 1] {
                Event::Internal(InternalEvent::FunctionBegin(_)) => {}
                Event::Wasm(op) => assert!(op.starts_block()),
                other => panic!("{:?} before a charging sequence", other),
            }
        }
        i += 1;
    }
    assert_eq!(found, 6);
}

#[test]
fn a_cost_slot_that_holds_something_else_is_malformed() {
    let mut metering = Metering::new(USED, LIMIT);
    let mut sink = EventSink::new();
    assert_eq!(metering.feed_event(begin(), &mut sink), Ok(()));
    assert!(sink.set(2, Event::WasmOwned(Operator::Nop)));
    let before = contents(&sink);
    assert_eq!(
        metering.feed_event(Event::Wasm(Operator::End), &mut sink),
        Err(MeteringError::MalformedSink)
    );
    assert_eq!(contents(&sink), before);
}

#[test]
fn a_lent_constant_in_a_cost_slot_is_malformed() {
    let mut metering = Metering::new(USED, LIMIT);
    let mut sink = EventSink::new();
    assert_eq!(metering.feed_event(begin(), &mut sink), Ok(()));
    assert!(sink.set(2, Event::Wasm(Operator::I64Const { value: 0 })));
    assert_eq!(
        metering.feed_event(end_of_function(), &mut sink),
        Err(MeteringError::MalformedSink)
    );
}

#[test]
fn a_sink_that_lost_its_cost_slot_is_malformed() {
    let mut metering = Metering::new(USED, LIMIT);
    let mut sink = EventSink::new();
    assert_eq!(metering.feed_event(begin(), &mut sink), Ok(()));
    let mut other = EventSink::new();
    assert_eq!(
        metering.feed_event(Event::Wasm(Operator::Return), &mut other),
        Err(MeteringError::MalformedSink)
    );
    assert_eq!(other.len(), 0);
}

#[test]
fn a_malformed_slot_leaves_the_costs_before_it() {
    let mut metering = Metering::new(USED, LIMIT);
    let mut sink = EventSink::new();
    let loop_ = Event::Wasm(Operator::Loop { ty: BlockType::Empty });
    assert_eq!(metering.feed_event(begin(), &mut sink), Ok(()));
    assert_eq!(metering.feed_event(loop_, &mut sink), Ok(()));
    assert!(sink.set(13, Event::WasmOwned(Operator::Nop)));
    assert_eq!(
        metering.feed_event(Event::Wasm(Operator::End), &mut sink),
        Err(MeteringError::MalformedSink)
    );
    assert_eq!(sink.get(2), Some(Event::WasmOwned(Operator::I64Const { value: 1 })));
    assert_eq!(sink.get(13), Some(Event::WasmOwned(Operator::Nop)));
    assert_eq!(sink.len(), 22);
}

#[test]
fn a_cost_that_outgrows_its_slot_is_an_overflow() {
    let mut metering = Metering::new(USED, LIMIT);
    let mut sink = EventSink::new();
    assert_eq!(metering.feed_event(begin(), &mut sink), Ok(()));
    assert!(sink.set(2, Event::WasmOwned(Operator::I64Const { value: i64::MAX })));
    let before = contents(&sink);
    assert_eq!(
        metering.feed_event(Event::Wasm(Operator::End), &mut sink),
        Err(MeteringError::CostOverflow)
    );
    assert_eq!(contents(&sink), before);
}

#[test]
fn a_cost_is_added_to_what_the_slot_holds() {
    let mut metering = Metering::new(USED, LIMIT);
    let mut sink = EventSink::new();
    assert_eq!(metering.feed_event(begin(), &mut sink), Ok(()));
    assert!(sink.set(2, Event::WasmOwned(Operator::I64Const { value: i64::MAX - 2 })));
    assert_eq!(metering.feed_event(Event::Wasm(Operator::Nop), &mut sink), Ok(()));
    assert_eq!(metering.feed_event(Event::Wasm(Operator::Return), &mut sink), Ok(()));
    assert_eq!(sink.get(2), Some(Event::WasmOwned(Operator::I64Const { value: i64::MAX })));
}

#[test]
fn the_same_stream_is_rewritten_the_same_way() {
    let body = [
        begin(),
        Event::Wasm(Operator::Loop { ty: BlockType::I64 }),
        Event::Wasm(Operator::Other { id: 5 }),
        Event::Wasm(Operator::BrIf { relative_depth: 0 }),
        Event::Wasm(Operator::End),
        Event::WasmOwned(Operator::End),
        end_of_function(),
    ];
    assert_eq!(rewrite(&body), rewrite(&body));
}

#[test]
fn error_messages() {
    assert_eq!(
        MeteringError::MalformedSink.message(),
        "metering: a cost slot does not hold an i64.const"
    );
    assert_eq!(
        MeteringError::CostOverflow.message(),
        "metering: the cost of a block does not fit in 64 bits"
    );
}

#[test]
fn event_trace_hands_events_on() {
    let mut trace = EventTrace::new();
    let mut sink = EventSink::new();
    let events = [begin(), Event::Wasm(Operator::End), end_of_function()];
    for ev in events {
        assert_eq!(trace.feed_event(ev, &mut sink), Ok(()));
    }
    assert_eq!(contents(&sink), events.to_vec());
}

#[test]
fn sink_positions() {
    let mut sink = EventSink::new();
    assert_eq!(sink.len(), 0);
    assert_eq!(sink.get(0), None);
    let nop = Event::Wasm(Operator::Nop);
    let drop = Event::Wasm(Operator::Drop);
    assert!(!sink.set(0, nop));
    sink.push(nop);
    sink.push(drop);
    sink.push(nop);
    assert_eq!(sink.len(), 3);
    assert_eq!(sink.get(1), Some(drop));
    assert!(sink.set(1, nop));
    assert_eq!(sink.get(1), Some(nop));
    assert!(!sink.set(3, drop));
    assert_eq!(sink.len(), 3);
    assert_eq!(contents(&sink), vec![nop, nop, nop]);
}

#[test]
fn function_end_alone_is_handed_on() {
    let out = rewrite(&[end_of_function()]);
    assert_eq!(out, vec![end_of_function()]);
}

#[test]
fn ten_events_are_too_few_to_take_any_off() {
    let mut metering = Metering::new(USED, LIMIT);
    let mut sink = EventSink::new();
    sink.push(Event::WasmOwned(Operator::End));
    for _ in 0..9 {
        sink.push(Event::Wasm(Operator::Nop));
    }
    assert_eq!(metering.feed_event(end_of_function(), &mut sink), Ok(()));
    assert_eq!(sink.len(), 11);
    assert_eq!(sink.get(0), Some(Event::WasmOwned(Operator::End)));
    assert_eq!(sink.get(10), Some(end_of_function()));
}

#[test]
fn an_owned_end_eleven_events_back_costs_the_last_ten() {
    let mut metering = Metering::new(USED, LIMIT);
    let mut sink = EventSink::new();
    sink.push(Event::Wasm(Operator::Drop));
    sink.push(Event::WasmOwned(Operator::End));
    for _ in 0..10 {
        sink.push(Event::Wasm(Operator::Nop));
    }
    assert_eq!(metering.feed_event(end_of_function(), &mut sink), Ok(()));
    assert_eq!(
        contents(&sink),
        vec![
            Event::Wasm(Operator::Drop),
            Event::WasmOwned(Operator::End),
            end_of_function()
        ]
    );
}

#[test]
fn a_second_function_begin_ends_the_block_of_the_first() {
    let second = Event::Internal(InternalEvent::FunctionBegin(1));
    let ret = Event::Wasm(Operator::Return);
    let out = rewrite(&[begin(), second, ret]);
    let expected = join(vec![vec![begin()], prelude(1), vec![second], prelude(1), vec![ret]]);
    assert_eq!(out, expected);
}

#[test]
fn the_transducer_starts_over_after_a_function() {
    let nop = Event::Wasm(Operator::Nop);
    let twice = rewrite(&[begin(), nop, end_of_function(), begin(), nop, end_of_function()]);
    let once = rewrite(&[begin(), nop, end_of_function()]);
    assert_eq!(twice, join(vec![once.clone(), once]));
}

fn is_cost(ev: &Event) -> bool {
    matches!(ev, Event::WasmOwned(Operator::I64Const { .. }))
}

fn looks_like_sequence(events: &[Event], at: usize) -> bool {
    at + 1 < events.len()
        && events[at] == Event::Internal(InternalEvent::GetInternal(USED))
        && is_cost(&events[at + 1])
}

fn without_sequences(events: &[Event]) -> Vec<Event> {
    let mut kept = Vec::new();
    let mut at = 0;
    while at < events.len() {
        if events.len() - at >= 10 && looks_like_sequence(events, at) {
            at += 10;
        } else {
            kept.push(events[at]);
            at += 1;
        }
    }
    kept
}

fn mixed_body() -> Vec<Event> {
    vec![
        begin(),
        Event::WasmOwned(Operator::Block { ty: BlockType::Empty }),
        Event::WasmOwned(Operator::Unreachable),
        Event::WasmOwned(Operator::Loop { ty: BlockType::Empty }),
        Event::WasmOwned(Operator::I64Const { value: 0 }),
        Event::WasmOwned(Operator::I64Add),
        Event::WasmOwned(Operator::BrIf { relative_depth: 0 }),
        Event::WasmOwned(Operator::Other { id: 3 }),
        Event::WasmOwned(Operator::Br { relative_depth: 1 }),
        Event::WasmOwned(Operator::Unreachable),
        Event::WasmOwned(Operator::End),
        Event::WasmOwned(Operator::If { ty: BlockType::I32 }),
        Event::WasmOwned(Operator::Return),
        Event::WasmOwned(Operator::Else),
        Event::WasmOwned(Operator::BrTable { table: 2 }),
        Event::WasmOwned(Operator::End),
        Event::WasmOwned(Operator::End),
        Event::WasmOwned(Operator::End),
        end_of_function(),
    ]
}

#[test]
fn taking_the_sequences_out_gives_back_the_body() {
    let body = mixed_body();
    let out = rewrite(&body);
    assert_eq!(without_sequences(&out), body);
    let unreachable = Event::WasmOwned(Operator::Unreachable);
    assert_eq!(
        out.iter().filter(|ev| **ev == unreachable).count(),
        body.iter().filter(|ev| **ev == unreachable).count()
    );
}

#[test]
fn a_sequence_begins_behind_every_opener_and_nowhere_else() {
    let body = mixed_body();
    let out = rewrite(&body);
    // Where the events of the body stand, and whether a sequence follows.
    let mut at = 0;
    for (j, ev) in body.iter().enumerate() {
        assert_eq!(out[at], *ev);
        let last_end = j == body.len() - 2;
        if ev.starts_block() && !last_end {
            assert!(looks_like_sequence(&out, at + 1));
            at += 11;
        } else {
            assert!(!looks_like_sequence(&out, at + 1));
            at += 1;
        }
    }
    assert_eq!(at, out.len());
    // Where something looks like a sequence, there is one behind an opener.
    for at in 0..out.len() {
        if looks_like_sequence(&out, at) {
            let cost = match out[at + 1] {
                Event::WasmOwned(Operator::I64Const { value }) => value,
                _ => unreachable!(),
            };
            assert!(cost >= 1);
            assert_eq!(out[at..at + 10].to_vec(), prelude(cost));
            assert!(out[at - 1].starts_block());
            assert!(!looks_like_sequence(&out, at + 10));
        }
    }
}

#[test]
fn the_costs_that_stay_add_up_to_the_operators() {
    // Three operators behind `FunctionBegin`, the last an owned `End`: the
    // point of `FunctionEnd` goes with the sequence that is taken off.
    let body = [
        begin(),
        Event::WasmOwned(Operator::I32Const { value: 1 }),
        Event::WasmOwned(Operator::Drop),
        Event::WasmOwned(Operator::End),
        end_of_function(),
    ];
    let out = rewrite(&body);
    assert_eq!(out.len(), 15);
    assert_eq!(costs(&out), vec![3]);
    let longer = [
        begin(),
        Event::WasmOwned(Operator::Nop),
        Event::WasmOwned(Operator::Loop { ty: BlockType::Empty }),
        Event::WasmOwned(Operator::Nop),
        Event::WasmOwned(Operator::If { ty: BlockType::Empty }),
        Event::WasmOwned(Operator::Nop),
        Event::WasmOwned(Operator::End),
        Event::WasmOwned(Operator::End),
        Event::WasmOwned(Operator::Nop),
        Event::WasmOwned(Operator::End),
        end_of_function(),
    ];
    let out = rewrite(&longer);
    let found = costs(&out);
    assert_eq!(found, vec![2, 2, 2, 1, 2]);
    assert_eq!(found.iter().sum::<i64>(), longer.len() as i64 - 2);
}

#[test]
fn one_cost_waits_at_a_time() {
    // Were two costs waiting, the branch would be written into both.
    let body = [
        begin(),
        Event::Wasm(Operator::Loop { ty: BlockType::Empty }),
        Event::Wasm(Operator::Loop { ty: BlockType::Empty }),
        Event::Wasm(Operator::Br { relative_depth: 0 }),
    ];
    let out = rewrite(&body);
    assert_eq!(costs(&out), vec![1, 1, 1]);
}
