//! What a finished clear has handed out, in every run.
use crate::block::BlockView;
use crate::laws::{law_one_clearer, lemma_data_is_all};
use crate::lines::{clear_line, line_taken};
use crate::model::{in_block, Pc, Task};
use crate::places::{
    is_push, law_hand_over_order, law_pushes_get_places, lemma_finished_has_place,
    lemma_places_stay, lemma_started, places, started, values,
};
use crate::runs::{all_handed_out, is_run, law_run_keeps_order, run, Event};
use crate::sums::gather;
use vstd::multiset::Multiset;
use vstd::prelude::*;
use vstd::seq_lib::lemma_multiset_commutative;

verus! {

/// How far a clearing operation has got with the pushes that had got a place when it began.
spec fn cleared_so_far<T>(events: Seq<Event<T>>, i: int) -> bool {
    let s = run(events);
    let early = places(events.take(started(events, i)));
    let all = places(events);
    match s.ops[i].pc {
        Pc::Lock => true,
        Pc::Swap => true,
        Pc::Unlock => forall|p: int| #[trigger] early.has(p) ==> all.out.contains(p),
        Pc::Done { .. } => forall|p: int| #[trigger] early.has(p) ==> all.out.contains(p),
        Pc::Idle => true,
        _ => forall|p: int| #[trigger] early.has(p) ==> all.out.contains(p) || all.there.contains(p),
    }
}

#[verifier::spinoff_prover]
#[verifier::rlimit(40)]
proof fn lemma_cleared_so_far<T>(events: Seq<Event<T>>, i: int)
    requires
        is_run(events),
        0 <= i < run(events).ops.len(),
        run(events).ops[i].task == Task::Clear,
    ensures
        cleared_so_far(events, i),
    decreases events.len(),
{
    if events.len() > 0 {
        let rest = events.drop_last();
        let s = run(rest);
        let t = run(events);
        let before = places(rest);
        law_run_keeps_order(rest);
        law_run_keeps_order(events);
        if events.last() matches Event::Begin { ticket, .. } && ticket == i {
        } else {
            assert(s.ops[i].task == Task::Clear) by {
                match events.last() {
                    Event::Step { ticket, .. } => assert(s.op_ok(s.ops[ticket])),
                    Event::Finish { ticket } => {},
                    _ => {},
                }
            }
            lemma_cleared_so_far(rest, i);
            lemma_started(rest, i);
            let b = started(rest, i);
            lemma_has_begun(rest, i);
            assert(started(events, i) == b);
            assert(rest.take(b) =~= events.take(b));
            let early = places(rest.take(b));
            lemma_places_stay(rest, b);
            lemma_event_on_out(events);
            assert(s.op_ok(s.ops[i]));
            if let Event::Step { ticket, .. } = events.last() {
                if ticket == i && s.ops[i].pc is Swap {
                    lemma_swap_leaves_none_here(rest, i);
                }
            }
            if let Event::HandOver { ticket } = events.last() {
                if ticket != i && s.ops[i].pc.locks() {
                    law_one_clearer(s, i, ticket);
                }
            }
        }
    }
}

/// An operation that is not idle has begun.
proof fn lemma_has_begun<T>(events: Seq<Event<T>>, i: int)
    requires
        is_run(events),
        0 <= i < run(events).ops.len(),
    ensures
        0 <= started(events, i) < events.len(),
    decreases events.len(),
{
    let rest = events.drop_last();
    if events.len() > 0 {
        law_run_keeps_order(rest);
        if events.last() matches Event::Begin { ticket, .. } && ticket == i {
        } else {
            lemma_has_begun(rest, i);
        }
    }
}

/// Places are left only by being handed over, and only the step that detaches the list moves the
/// pushes of the attached list.
proof fn lemma_event_on_out<T>(events: Seq<Event<T>>)
    requires
        is_run(events),
        events.len() > 0,
    ensures
        ({
            let before = places(events.drop_last());
            let after = places(events);
            &&& forall|p: int| #[trigger] before.out.contains(p) ==> after.out.contains(p)
            &&& !(events.last() is HandOver) && !(events.last() matches Event::Step { ticket, .. }
                && run(events.drop_last()).ops[ticket].pc is Swap) ==> forall|p: int| #[trigger]
                before.there.contains(p) ==> after.there.contains(p)
            &&& events.last() is HandOver ==> forall|p: int| #[trigger]
                before.there.contains(p) ==> after.out.contains(p)
        }),
{
    let before = places(events.drop_last());
    let after = places(events);
    assert forall|p: int| #[trigger] before.out.contains(p) implies after.out.contains(p) by {
        if events.last() is HandOver {
            let k = choose|k: int| 0 <= k < before.out.len() && before.out[k] == p;
            assert(after.out[k] == p);
        }
    }
    assert forall|p: int| #[trigger] before.there.contains(p) implies after.there.contains(p)
        || events.last() is HandOver || (events.last() matches Event::Step { ticket, .. } && run(
        events.drop_last(),
    ).ops[ticket].pc is Swap) by {
        let k = choose|k: int| 0 <= k < before.there.len() && before.there[k] == p;
        assert(after.there.len() <= k || after.there[k] == p || events.last() is HandOver || (
        events.last() matches Event::Step { ticket, .. } && run(
            events.drop_last(),
        ).ops[ticket].pc is Swap));
    }
    if events.last() is HandOver {
        assert forall|p: int| #[trigger] before.there.contains(p) implies after.out.contains(p) by {
            let k = choose|k: int| 0 <= k < before.there.len() && before.there[k] == p;
            assert(after.out[before.out.len() + k] == p);
        }
    }
}

/// The step that detaches the list leaves no push in the attached list, and there is none elsewhere
/// but among those that have been handed over.
proof fn lemma_swap_leaves_none_here<T>(events: Seq<Event<T>>, i: int)
    requires
        is_run(events),
        0 <= i < run(events).ops.len(),
        run(events).ops[i].pc is Swap,
    ensures
        places(events).there.len() == 0,
        run(events).tail is None ==> places(events).here.len() == 0,
{
    let s = run(events);
    law_run_keeps_order(events);
    law_pushes_get_places(events);
    assert(s.op_ok(s.ops[i]));
    assert(values(events, places(events).there).len() == places(events).there.len());
    assert(values(events, places(events).here).len() == places(events).here.len());
    assert(s.ops[i].pc.locks());
    assert(clear_line(s, i).len() == 0);
}

/// A finished clear has handed out everything, whatever the interleaving: every push that had got a
/// place when the clear began has been handed out, by this clear or by another one.
pub proof fn law_clear_hands_out_everything<T>(events: Seq<Event<T>>, i: int, push: int)
    requires
        is_run(events),
        0 <= i < run(events).ops.len(),
        run(events).ops[i].task == Task::Clear,
        run(events).ops[i].pc is Done,
        places(events.take(started(events, i))).has(push),
    ensures
        places(events).out.contains(push),
{
    lemma_cleared_so_far(events, i);
}

/// Every value that was pushed by a push that had finished when a clear began has been handed out
/// when the clear is done.
pub proof fn law_clear_hands_out_finished_pushes<T>(
    events: Seq<Event<T>>,
    i: int,
    push: int,
    finished: int,
)
    requires
        is_run(events),
        0 <= i < run(events).ops.len(),
        run(events).ops[i].task == Task::Clear,
        run(events).ops[i].pc is Done,
        is_push(events, push),
        push < finished < started(events, i),
        events[finished] is Finish,
        started(events.take(finished), events[finished]->Finish_ticket) == push,
    ensures
        places(events).out.contains(push),
        all_handed_out(events).count(events[push]->value->0) > 0,
{
    let b = started(events, i);
    lemma_started(events, i);
    lemma_finished_has_place(events, push, finished, b);
    law_clear_hands_out_everything(events, i, push);
    law_out_is_handed_out(events);
    let out = places(events).out;
    let k = choose|k: int| 0 <= k < out.len() && out[k] == push;
    assert(values(events, out)[k] == events[push]->value->0);
    values(events, out).to_multiset_ensures();
    assert(values(events, out).contains(events[push]->value->0));
}

/// The values of blocks that have been taken, and have no writes in flight, are those of their line.
proof fn lemma_taken_values<T>(taken: Seq<BlockView<T>>)
    requires
        forall|k: int| 0 <= k < taken.len() ==> #[trigger] taken[k].valid() && taken[k].quiesced(),
    ensures
        gather(taken, in_block()) == line_taken(taken).to_multiset(),
    decreases taken.len(),
{
    if taken.len() == 0 {
        line_taken(taken).to_multiset_ensures();
        assert(line_taken(taken).to_multiset() =~= Multiset::<T>::empty());
    } else {
        let rest = taken.drop_last();
        assert forall|k: int| 0 <= k < rest.len() implies #[trigger] rest[k].valid()
            && rest[k].quiesced() by {
            assert(taken[k].valid());
        }
        lemma_taken_values(rest);
        assert(taken[taken.len() - 1].valid());
        lemma_data_is_all(taken.last());
        lemma_multiset_commutative(taken.last().data(), line_taken(rest));
        assert(gather(taken, in_block()) =~= line_taken(taken).to_multiset());
    }
}

/// What has been handed out are the values of the pushes that have been handed over, each once.
pub proof fn law_out_is_handed_out<T>(events: Seq<Event<T>>)
    requires
        is_run(events),
    ensures
        values(events, places(events).out).to_multiset() == all_handed_out(events),
    decreases events.len(),
{
    let all = places(events);
    if events.len() == 0 {
        values(events, all.out).to_multiset_ensures();
        assert(values(events, all.out).to_multiset() =~= all_handed_out(events));
    } else {
        let rest = events.drop_last();
        let before = places(rest);
        law_out_is_handed_out(rest);
        law_pushes_get_places(rest);
        assert forall|k: int| 0 <= k < before.out.len() implies is_push(
            rest,
            #[trigger] before.out[k],
        ) by {
            assert(before.whole()[k] == before.out[k]);
            assert(before.whole().contains(before.out[k]));
        }
        assert forall|k: int| 0 <= k < before.there.len() implies is_push(
            rest,
            #[trigger] before.there[k],
        ) by {
            assert(before.whole()[before.out.len() + k] == before.there[k]);
            assert(before.whole().contains(before.there[k]));
        }
        assert(values(events, before.out) =~= values(rest, before.out));
        assert(values(events, before.there) =~= values(rest, before.there));
        if let Event::HandOver { ticket } = events.last() {
            let s = run(rest);
            law_run_keeps_order(rest);
            law_hand_over_order(rest, ticket);
            assert(s.op_ok(s.ops[ticket]));
            lemma_taken_values(s.ops[ticket].taken);
            assert(values(events, all.out) =~= values(rest, before.out) + values(
                rest,
                before.there,
            ));
            lemma_multiset_commutative(values(rest, before.out), values(rest, before.there));
        } else {
            assert(all_handed_out(events) =~= all_handed_out(rest));
        }
    }
}

} // verus!
