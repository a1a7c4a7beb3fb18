//! What the answer of an operation that asks whether a stripe has values says, in every run.
use crate::block::{lemma_leading_run_grows, lemma_quiesced};
use crate::exclusive::holds_nothing;
use crate::laws::{law_blocks_only_grow, lemma_grows_on};
use crate::model::{Pc, State, Task};
use crate::places::{lemma_started, started};
use crate::protocol::lemma_touchable;
use crate::runs::{is_run, law_run_keeps_order, lemma_run_prefix, run, Event};
use vstd::prelude::*;

verus! {

/// Whether a slot of an attached block has been claimed and not been published.
pub open spec fn writes_in_flight<T>(s: State<T>) -> bool {
    exists|address: usize| #[trigger]
        s.attached.contains(address) && !s.block(address).quiesced()
}

/// Whether a block that is attached, or has been detached and not been handed over, has data to be
/// read.
pub open spec fn has_data<T>(s: State<T>) -> bool {
    exists|address: usize| #[trigger]
        s.has(address) && (s.attached.contains(address) || s.detached.contains(address)) && s.block(
            address,
        ).data().len() > 0
}

/// Whether an answer to the question whether a stripe has no values is right at a moment: there was
/// nothing to be read in the two newest blocks, nor in the whole list unless a write was in flight;
/// or there was something to be read.
pub open spec fn answer_is_right<T>(s: State<T>, answer: Option<bool>) -> bool {
    match answer {
        Some(true) => {
            &&& forall|k: int|
                0 <= k < s.contents().len() && k < 2 ==> #[trigger] s.contents()[k].len() == 0
            &&& holds_nothing(s.contents()) || writes_in_flight(s)
        },
        Some(false) => has_data(s),
        None => false,
    }
}

/// Whether an answer was right at a moment of the operation with a ticket.
pub open spec fn was_right_at<T>(
    events: Seq<Event<T>>,
    i: int,
    answer: Option<bool>,
    moment: int,
) -> bool {
    started(events, i) < moment <= events.len() && answer_is_right(
        run(events.take(moment)),
        answer,
    )
}

/// The moment at which the operation with a ticket has last loaded the most recent block, or -1.
pub open spec fn loaded<T>(events: Seq<Event<T>>, ticket: int) -> int
    decreases events.len(),
{
    if events.len() == 0 {
        -1
    } else {
        let rest = events.drop_last();
        match events.last() {
            Event::Begin { ticket: begun, .. } if begun == ticket => -1,
            Event::Step { ticket: stepped, .. } if stepped == ticket && run(
                rest,
            ).ops[ticket].pc is LoadTail => rest.len() as int,
            _ => loaded(rest, ticket),
        }
    }
}

/// Whether a block, and the one that came before it, have at most grown.
spec fn has_grown<T>(before: State<T>, after: State<T>, address: usize) -> bool {
    &&& before.block(address).grows_to(after.block(address))
    &&& before.block(address).next matches Some(next) ==> before.block(next).grows_to(
        after.block(next),
    )
}

/// What an operation that asks whether a stripe has values has found out so far.
spec fn found_out<T>(events: Seq<Event<T>>, i: int) -> bool {
    let s = run(events);
    let m = loaded(events, i);
    let before = run(events.take(m));
    match s.ops[i].pc {
        Pc::ProbeTail { block, .. } => {
            &&& started(events, i) < m <= events.len()
            &&& before.tail == Some(block)
            &&& has_grown(before, s, block)
        },
        Pc::ProbeLink { block, .. } => {
            &&& started(events, i) < m <= events.len()
            &&& before.tail == Some(block)
            &&& has_grown(before, s, block)
            &&& before.block(block).len() == 0
        },
        Pc::ProbeNext { block, .. } => {
            &&& started(events, i) < m <= events.len()
            &&& before.tail matches Some(tail) && before.block(tail).len() == 0 && before.block(
                tail,
            ).next == Some(block)
            &&& before.block(block).grows_to(s.block(block))
        },
        Pc::Exit { answer, .. } => exists|m: int| #[trigger] was_right_at(events, i, answer, m),
        Pc::Done { answer } => exists|m: int| #[trigger] was_right_at(events, i, answer, m),
        _ => true,
    }
}

/// A later moment does not change what was right earlier.
proof fn lemma_still_right<T>(events: Seq<Event<T>>, i: int, answer: Option<bool>)
    requires
        events.len() > 0,
        started(events, i) == started(events.drop_last(), i),
        exists|m: int| #[trigger] was_right_at(events.drop_last(), i, answer, m),
    ensures
        exists|m: int| #[trigger] was_right_at(events, i, answer, m),
{
    let rest = events.drop_last();
    lemma_started(rest, i);
    let m = choose|m: int| #[trigger] was_right_at(rest, i, answer, m);
    assert(rest.take(m) =~= events.take(m));
    assert(was_right_at(events, i, answer, m));
}

/// A block that an operation has hold of stays, and so does the one that came before it, when
/// another operation takes a step.
#[verifier::spinoff_prover]
#[verifier::rlimit(40)]
proof fn lemma_stays_with_next<T>(s: State<T>, t: State<T>, phase: usize, address: usize)
    requires
        s.lists_ok(),
        t.lists_ok(),
        s.touchable(phase, address),
        t.touchable(phase, address),
        forall|a: usize| s.has(a) && #[trigger] t.has(a) ==> s.block(a).grows_to(t.block(a)),
    ensures
        s.block(address).grows_to(t.block(address)),
        s.block(address).next matches Some(next) ==> s.block(next).grows_to(t.block(next)),
{
    lemma_touchable(s, phase, address);
    lemma_touchable(t, phase, address);
    assert(s.block(address).grows_to(t.block(address)));
    if let Some(next) = s.block(address).next {
        lemma_touchable(s, phase, next);
        lemma_touchable(t, phase, next);
    }
}

/// Blocks that have at most grown before have at most grown after.
proof fn lemma_has_grown<T>(before: State<T>, s: State<T>, t: State<T>, address: usize)
    requires
        s.block(address).grows_to(t.block(address)),
        s.block(address).next matches Some(next) ==> s.block(next).grows_to(t.block(next)),
        before.block(address).grows_to(s.block(address)),
    ensures
        before.block(address).grows_to(t.block(address)),
        has_grown(before, s, address) ==> has_grown(before, t, address),
{
    lemma_grows_on(before.block(address), s.block(address), t.block(address));
    if let Some(next) = s.block(address).next {
        if has_grown(before, s, address) {
            lemma_grows_on(before.block(next), s.block(next), t.block(next));
        }
    }
}

/// Blocks that an operation has hold of have at most grown when another operation has taken a step.
#[verifier::spinoff_prover]
#[verifier::rlimit(40)]
proof fn lemma_step_has_grown<T>(
    before: State<T>,
    s: State<T>,
    i: int,
    j: int,
    fresh: usize,
    address: usize,
)
    requires
        s.inv(),
        s.next(j, fresh).inv(),
        0 <= i < s.ops.len(),
        0 <= j < s.ops.len(),
        i != j,
        s.vacant(fresh),
        s.ops[i].pc.touches() == Some(address),
        s.next(j, fresh).ops[i] == s.ops[i],
        before.block(address).grows_to(s.block(address)),
    ensures
        before.block(address).grows_to(s.next(j, fresh).block(address)),
        has_grown(before, s, address) ==> has_grown(before, s.next(j, fresh), address),
{
    let t = s.next(j, fresh);
    assert(s.op_ok(s.ops[i]));
    assert(t.op_ok(t.ops[i]));
    assert forall|a: usize| s.has(a) && #[trigger] t.has(a) implies s.block(a).grows_to(
        t.block(a),
    ) by {
        law_blocks_only_grow(s, j, fresh, a);
    }
    lemma_stays_with_next(s, t, s.ops[i].pc.entered()->0, address);
    lemma_has_grown(before, s, t, address);
}

/// The next step of the operation itself.
#[verifier::spinoff_prover]
#[verifier::rlimit(40)]
proof fn lemma_own_step_finds_out<T>(events: Seq<Event<T>>, i: int)
    requires
        is_run(events),
        events.len() > 0,
        events.last() is Step,
        events.last()->Step_ticket == i,
        run(events.drop_last()).ops[i].task == Task::IsEmpty,
        found_out(events.drop_last(), i),
    ensures
        found_out(events, i),
{
    let rest = events.drop_last();
    let s = run(rest);
    let t = run(events);
    let op = s.ops[i];
    let here = rest.len() as int;
    law_run_keeps_order(rest);
    lemma_started(rest, i);
    assert(s.op_ok(op));
    assert(started(events, i) == started(rest, i));
    assert(events.take(here) =~= rest);
    let m = loaded(rest, i);
    assert(rest.take(m) =~= events.take(m) || m < 0 || m > rest.len());
    let before = run(rest.take(m));
    if let Some(address) = op.pc.touches() {
        lemma_touchable(s, op.pc.entered()->0, address);
    }
    match op.pc {
        Pc::LoadTail { .. } => {
            assert(loaded(events, i) == here);
            if s.tail is None {
                assert(holds_nothing(s.contents()));
                assert(was_right_at(events, i, Some(true), here));
            } else {
                assert(s.attached[0] == s.tail->0);
                assert(has_grown(s, t, s.tail->0));
            }
        },
        Pc::ProbeTail { block, .. } => {
            lemma_leading_run_grows(before.block(block).ready, s.block(block).ready);
            if s.block(block).len() > 0 {
                assert(has_data(s)) by {
                    assert(s.has(block));
                }
                assert(was_right_at(events, i, Some(false), here));
            }
        },
        Pc::ProbeLink { block, .. } => {
            if s.block(block).next is None {
                lemma_run_prefix(rest, m);
                law_run_keeps_order(rest.take(m));
                assert(before.linked(before.attached, 0));
                assert(before.attached.len() == 1);
                assert(before.contents()[0] == before.block(block).data());
                assert(holds_nothing(before.contents()));
                assert(was_right_at(events, i, Some(true), m));
            }
        },
        Pc::ProbeNext { block, .. } => {
            lemma_leading_run_grows(before.block(block).ready, s.block(block).ready);
            if s.block(block).len() > 0 {
                assert(has_data(s)) by {
                    assert(s.has(block));
                }
                assert(was_right_at(events, i, Some(false), here));
            } else {
                lemma_run_prefix(rest, m);
                law_run_keeps_order(rest.take(m));
                assert(before.linked(before.attached, 0));
                assert(before.linked(before.attached, 1));
                assert(before.attached[1] == block);
                assert(before.contents()[0] == before.block(before.attached[0]).data());
                assert(before.contents()[1] == before.block(block).data());
                assert(before.attached.contains(block));
                assert(before.block(block).valid());
                lemma_quiesced(before.block(block));
                assert(writes_in_flight(before));
                assert(was_right_at(events, i, Some(true), m));
            }
        },
        Pc::Exit { answer, .. } => lemma_still_right(events, i, answer),
        Pc::Done { answer } => lemma_still_right(events, i, answer),
        _ => {},
    }
}

/// What happens to other operations does not change what an operation has found out.
#[verifier::spinoff_prover]
#[verifier::rlimit(40)]
proof fn lemma_other_event_finds_out<T>(events: Seq<Event<T>>, i: int)
    requires
        is_run(events),
        events.len() > 0,
        0 <= i < run(events.drop_last()).ops.len(),
        run(events).ops[i] == run(events.drop_last()).ops[i],
        !(events.last() matches Event::Step { ticket, .. } && ticket == i),
        !(events.last() matches Event::Begin { ticket, .. } && ticket == i),
        found_out(events.drop_last(), i),
    ensures
        found_out(events, i),
{
    let rest = events.drop_last();
    let s = run(rest);
    let t = run(events);
    let op = s.ops[i];
    law_run_keeps_order(rest);
    law_run_keeps_order(events);
    lemma_started(rest, i);
    assert(s.op_ok(op));
    assert(started(events, i) == started(rest, i));
    let m = loaded(rest, i);
    assert(loaded(events, i) == m);
    assert(rest.take(m) =~= events.take(m) || m < 0 || m > rest.len());
    let before = run(rest.take(m));
    match op.pc {
        Pc::Exit { answer, .. } => lemma_still_right(events, i, answer),
        Pc::Done { answer } => lemma_still_right(events, i, answer),
        _ => {
            if op.pc.touches() is Some {
                let address = op.pc.touches()->0;
                match events.last() {
                    Event::Step { ticket, fresh } => {
                        if op.pc is ProbeTail || op.pc is ProbeLink || op.pc is ProbeNext {
                            lemma_step_has_grown(before, s, i, ticket, fresh, address);
                        }
                    },
                    _ => {
                        assert(t.heap == s.heap);
                    },
                }
            }
        },
    }
}

proof fn lemma_found_out<T>(events: Seq<Event<T>>, i: int)
    requires
        is_run(events),
        0 <= i < run(events).ops.len(),
        run(events).ops[i].task == Task::IsEmpty,
    ensures
        found_out(events, i),
    decreases events.len(),
{
    if events.len() > 0 {
        let rest = events.drop_last();
        let s = run(rest);
        let t = run(events);
        law_run_keeps_order(rest);
        match events.last() {
            Event::Begin { ticket, .. } => {
                if ticket != i {
                    assert(t.ops[i] == s.ops[i]);
                    lemma_found_out(rest, i);
                    lemma_other_event_finds_out(events, i);
                }
            },
            Event::Step { ticket, .. } => {
                assert(s.ops[i].task == t.ops[i].task) by {
                    assert(s.op_ok(s.ops[ticket]));
                }
                lemma_found_out(rest, i);
                if ticket == i {
                    lemma_own_step_finds_out(events, i);
                } else {
                    assert(t.ops[i] == s.ops[i]);
                    lemma_other_event_finds_out(events, i);
                }
            },
            Event::Abandon { ticket } => {
                assert(s.op_ok(s.ops[ticket]));
                assert(t.ops[i] == s.ops[i]);
                lemma_found_out(rest, i);
                lemma_other_event_finds_out(events, i);
            },
            Event::HandOver { ticket } => {
                assert(s.op_ok(s.ops[ticket]));
                assert(t.ops[i] == s.ops[i]);
                lemma_found_out(rest, i);
                lemma_other_event_finds_out(events, i);
            },
            Event::Finish { ticket } => {
                assert(t.ops[i] == s.ops[i]);
                lemma_found_out(rest, i);
                lemma_other_event_finds_out(events, i);
            },
        }
    }
}

/// The answer that a finished operation gives to the question whether a stripe has no values is
/// right, whatever the interleaving: it says that there are none only if there was a moment, since
/// the operation began, at which the two newest blocks had nothing to be read, nor any other attached
/// block unless a write was in flight; and it says that there are some only if there was a moment at
/// which a block had something to be read.  There is always an answer.
pub proof fn law_answer_is_right<T>(events: Seq<Event<T>>, i: int, answer: Option<bool>)
    requires
        is_run(events),
        0 <= i < run(events).ops.len(),
        run(events).ops[i].task == Task::IsEmpty,
        run(events).ops[i].pc == (Pc::Done { answer }),
    ensures
        answer is Some,
        exists|m: int| #[trigger] was_right_at(events, i, answer, m),
{
    lemma_found_out(events, i);
}

/// Only an operation that asks whether a stripe has values gives an answer.
pub proof fn law_others_give_no_answer<T>(events: Seq<Event<T>>, i: int, answer: Option<bool>)
    requires
        is_run(events),
        0 <= i < run(events).ops.len(),
        run(events).ops[i].task != Task::IsEmpty,
        run(events).ops[i].pc == (Pc::Done { answer }),
    ensures
        answer is None,
    decreases events.len(),
{
    let rest = events.drop_last();
    let s = run(rest);
    let t = run(events);
    if events.len() > 0 {
        law_run_keeps_order(rest);
        match events.last() {
            Event::Begin { ticket, .. } => {
                assert(ticket != i);
                assert(t.ops[i] == s.ops[i]);
                law_others_give_no_answer(rest, i, answer);
            },
            Event::Step { ticket, .. } => {
                assert(s.op_ok(s.ops[ticket]));
                if s.ops[i].pc == t.ops[i].pc {
                    law_others_give_no_answer(rest, i, answer);
                }
            },
            Event::Abandon { ticket } => {
                assert(s.op_ok(s.ops[ticket]));
                law_others_give_no_answer(rest, i, answer);
            },
            Event::HandOver { ticket } => {
                law_others_give_no_answer(rest, i, answer);
            },
            Event::Finish { ticket } => {
                law_others_give_no_answer(rest, i, answer);
            },
        }
    }
}

} // verus!
