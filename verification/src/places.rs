//! The places of pushes in whole runs, and their order.
//!
//! A push is known by the number of the event with which it began.
use crate::block::{lemma_quiesced, BLOCK_SIZE};
use crate::bucket::{lemma_flatten_contains, lemma_flatten_source};
use crate::laws::{holds_detached, law_no_hold_is_gained, law_one_clearer, law_quiet};
use crate::lines::{
    claims, clear_line, law_step_on_clear_line, law_step_on_lines, lemma_other_event,
    lemma_quiet_line, line, line_taken,
};
use crate::model::{OpView, State, Task};
use crate::protocol::lockers;
use crate::runs::{is_run, law_run_keeps_order, law_run_wants_newest, run, Event};
use crate::sums::lemma_tally_covers;
use vstd::prelude::*;

verus! {

/// The number of the event with which the operation with a ticket began, or -1.
pub open spec fn started<T>(events: Seq<Event<T>>, ticket: int) -> int
    decreases events.len(),
{
    if events.len() == 0 {
        -1
    } else if events.last() matches Event::Begin { ticket: begun, .. } && begun == ticket {
        events.len() - 1
    } else {
        started(events.drop_last(), ticket)
    }
}

/// Whether a push begins with an event.
pub open spec fn is_push<T>(events: Seq<Event<T>>, p: int) -> bool {
    0 <= p < events.len() && events[p] is Begin && events[p]->task == Task::Push
        && events[p]->value is Some
}

/// The values of pushes.
pub open spec fn values<T>(events: Seq<Event<T>>, pushes: Seq<int>) -> Seq<T> {
    pushes.map_values(|p: int| events[p]->value->0)
}

/// Which pushes have got a place, in the order of the lines.
#[verifier::ext_equal]
pub struct Places {
    /// In the attached list.
    pub here: Seq<int>,
    /// In the list that a clearing operation has detached and not handed over yet.
    pub there: Seq<int>,
    /// In the lists that have been handed over, one after the other.
    pub out: Seq<int>,
}

impl Places {
    /// All pushes that have got a place: those of the lists that have been handed over, then those
    /// of the detached list, then those of the attached list.
    pub open spec fn whole(self) -> Seq<int> {
        self.out + self.there + self.here
    }

    /// Whether a push has got a place.
    pub open spec fn has(self, p: int) -> bool {
        self.out.contains(p) || self.there.contains(p) || self.here.contains(p)
    }

    /// Whether no push has two places.
    pub open spec fn apart(self) -> bool {
        &&& self.out.no_duplicates()
        &&& self.there.no_duplicates()
        &&& self.here.no_duplicates()
        &&& forall|p: int| #[trigger] self.out.contains(p) ==> !self.there.contains(p)
        &&& forall|p: int| #[trigger] self.out.contains(p) ==> !self.here.contains(p)
        &&& forall|p: int| #[trigger] self.there.contains(p) ==> !self.here.contains(p)
    }
}

/// Which pushes have got a place in a run.  A push gets its place when it claims a slot.
pub open spec fn places<T>(events: Seq<Event<T>>) -> Places
    decreases events.len(),
{
    if events.len() == 0 {
        Places { here: Seq::empty(), there: Seq::empty(), out: Seq::empty() }
    } else {
        let rest = events.drop_last();
        let s = run(rest);
        let before = places(rest);
        match events.last() {
            Event::Step { ticket, .. } => if claims(s, ticket) {
                if s.attached.contains(s.ops[ticket].pc.touches()->0) {
                    Places { here: before.here.push(started(rest, ticket)), ..before }
                } else {
                    Places { there: before.there.push(started(rest, ticket)), ..before }
                }
            } else if s.ops[ticket].pc is Swap && s.tail is Some {
                Places { here: Seq::empty(), there: before.here, ..before }
            } else {
                before
            },
            Event::HandOver { .. } => Places {
                there: Seq::empty(),
                out: before.out + before.there,
                ..before
            },
            _ => before,
        }
    }
}

/// Whether an operation is a push that has not got a place yet.
pub open spec fn unplaced<T>(op: OpView<T>) -> bool {
    op.task == Task::Push && op.pc.carries() && !(op.pc is Fill)
}

/// The push that an operation carries out: it has its value, and has a place or none.
pub open spec fn carried_out<T>(events: Seq<Event<T>>, s: State<T>, i: int) -> bool {
    let op = s.ops[i];
    op.task == Task::Push && !(op.pc is Idle) ==> {
        &&& is_push(events, started(events, i))
        &&& op.pc.carries() ==> op.value == events[started(events, i)]->value
        &&& unplaced(op) <==> !places(events).has(started(events, i))
    }
}

/// Whether a push is in flight and has not got a place yet.
pub open spec fn on_its_way<T>(events: Seq<Event<T>>, s: State<T>, p: int) -> bool {
    exists|i: int|
        0 <= i < s.ops.len() && unplaced(#[trigger] s.ops[i]) && started(events, i) == p
}

/// The event with which an operation began is one with its ticket.
pub proof fn lemma_started<T>(events: Seq<Event<T>>, ticket: int)
    ensures
        -1 <= started(events, ticket) < events.len(),
        started(events, ticket) >= 0 ==> events[started(events, ticket)] is Begin
            && events[started(events, ticket)]->Begin_ticket == ticket,
    decreases events.len(),
{
    if events.len() > 0 {
        lemma_started(events.drop_last(), ticket);
    }
}

/// A push can be told by the event with which it began.
spec fn told_apart<T>(events: Seq<Event<T>>) -> bool {
    &&& places(events).apart()
    &&& forall|p: int| #[trigger] places(events).has(p) ==> is_push(events, p)
    &&& forall|i: int|
        0 <= i < run(events).ops.len() ==> #[trigger] carried_out(events, run(events), i)
    &&& forall|p: int| #[trigger]
        is_push(events, p) ==> places(events).has(p) || on_its_way(events, run(events), p)
    &&& !run(events).clearing ==> places(events).there.len() == 0
    &&& forall|i: int|
        0 <= i < run(events).ops.len() && ((#[trigger] run(events).ops[i]).pc is Swap || run(
            events,
        ).ops[i].pc is Unlock) ==> places(events).there.len() == 0
}

proof fn lemma_push_contains(s: Seq<int>, x: int)
    ensures
        forall|p: int| #[trigger] s.push(x).contains(p) <==> s.contains(p) || p == x,
{
    assert forall|p: int| s.contains(p) || p == x implies #[trigger] s.push(x).contains(p) by {
        if s.contains(p) {
            let k = choose|k: int| 0 <= k < s.len() && s[k] == p;
            assert(s.push(x)[k] == p);
        } else {
            assert(s.push(x)[s.len() as int] == x);
        }
    }
}

proof fn lemma_concat_apart(a: Seq<int>, b: Seq<int>)
    requires
        a.no_duplicates(),
        b.no_duplicates(),
        forall|p: int| #[trigger] a.contains(p) ==> !b.contains(p),
    ensures
        (a + b).no_duplicates(),
{
    assert forall|k: int, l: int| 0 <= k < l < (a + b).len() implies (a + b)[k] != (a + b)[l] by {
        if k < a.len() && l >= a.len() {
            assert(a.contains(a[k]));
            assert(b.contains(b[l - a.len()]));
        }
    }
}

proof fn lemma_concat_contains(a: Seq<int>, b: Seq<int>)
    ensures
        forall|p: int| #[trigger] (a + b).contains(p) <==> a.contains(p) || b.contains(p),
{
    assert forall|p: int| a.contains(p) || b.contains(p) implies #[trigger] (a + b).contains(p) by {
        if a.contains(p) {
            let k = choose|k: int| 0 <= k < a.len() && a[k] == p;
            assert((a + b)[k] == p);
        } else {
            let k = choose|k: int| 0 <= k < b.len() && b[k] == p;
            assert((a + b)[a.len() + k] == p);
        }
    }
}

/// An event that gives no push a place leaves those that have one.
#[verifier::spinoff_prover]
#[verifier::rlimit(40)]
proof fn lemma_told_begin<T>(events: Seq<Event<T>>)
    requires
        is_run(events),
        events.len() > 0,
        events.last() is Begin,
        told_apart(events.drop_last()),
    ensures
        told_apart(events),
{
    let rest = events.drop_last();
    let s = run(rest);
    let t = run(events);
    let i = events.last()->Begin_ticket;
    assert(places(events) == places(rest));
    assert forall|p: int| #[trigger] is_push(events, p) && p < rest.len() implies is_push(rest, p) by {}
    assert forall|j: int| 0 <= j < t.ops.len() implies #[trigger] carried_out(events, t, j) by {
        if j != i {
            assert(carried_out(rest, s, j));
            assert(t.ops[j] == s.ops[j]);
            assert(started(events, j) == started(rest, j));
        } else {
            assert(started(events, i) == rest.len());
            if places(rest).has(rest.len() as int) {
                assert(is_push(rest, rest.len() as int));
            }
        }
    }
    assert forall|p: int| #[trigger] is_push(events, p) implies places(events).has(p) || on_its_way(
        events,
        t,
        p,
    ) by {
        if p == rest.len() {
            assert(unplaced(t.ops[i]));
        } else {
            assert(is_push(rest, p));
            if !places(rest).has(p) {
                let j = choose|j: int|
                    0 <= j < s.ops.len() && unplaced(#[trigger] s.ops[j]) && started(rest, j) == p;
                assert(j != i);
                assert(t.ops[j] == s.ops[j]);
                assert(started(events, j) == started(rest, j));
            }
        }
    }
    assert forall|p: int| #[trigger] places(events).has(p) implies is_push(events, p) by {
        assert(is_push(rest, p));
    }
    assert forall|j: int|
        0 <= j < t.ops.len() && ((#[trigger] t.ops[j]).pc is Swap
            || t.ops[j].pc is Unlock) implies places(events).there.len() == 0 by {
        assert(t.ops[j] == s.ops[j]);
    }
}

/// Events other than steps and beginnings.
#[verifier::spinoff_prover]
#[verifier::rlimit(40)]
proof fn lemma_told_other<T>(events: Seq<Event<T>>)
    requires
        is_run(events),
        events.len() > 0,
        !(events.last() is Begin),
        !(events.last() is Step),
        told_apart(events.drop_last()),
    ensures
        told_apart(events),
{
    let rest = events.drop_last();
    let s = run(rest);
    let t = run(events);
    law_run_keeps_order(rest);
    let i = match events.last() {
        Event::Abandon { ticket } => ticket,
        Event::HandOver { ticket } => ticket,
        Event::Finish { ticket } => ticket,
        _ => 0,
    };
    assert(s.op_ok(s.ops[i]));
    lemma_concat_contains(places(rest).out, places(rest).there);
    lemma_concat_apart(places(rest).out, places(rest).there);
    assert forall|p: int| #[trigger] places(events).has(p) == places(rest).has(p) by {}
    assert(places(events).apart());
    assert forall|j: int| 0 <= j < t.ops.len() implies #[trigger] carried_out(events, t, j) by {
        assert(carried_out(rest, s, j));
        assert(started(events, j) == started(rest, j));
        if j != i {
            assert(t.ops[j] == s.ops[j]);
        }
    }
    assert forall|p: int| #[trigger] is_push(events, p) implies places(events).has(p) || on_its_way(
        events,
        t,
        p,
    ) by {
        assert(is_push(rest, p));
        if !places(rest).has(p) {
            let j = choose|j: int|
                0 <= j < s.ops.len() && unplaced(#[trigger] s.ops[j]) && started(rest, j) == p;
            assert(j != i);
            assert(t.ops[j] == s.ops[j]);
            assert(started(events, j) == started(rest, j));
        }
    }
    assert forall|p: int| #[trigger] places(events).has(p) implies is_push(events, p) by {
        assert(is_push(rest, p));
    }
    assert forall|j: int|
        0 <= j < t.ops.len() && ((#[trigger] t.ops[j]).pc is Swap
            || t.ops[j].pc is Unlock) implies places(events).there.len() == 0 by {
        if j != i {
            assert(t.ops[j] == s.ops[j]);
        }
    }
}

/// What a step that gives no push a place does to its operation.
proof fn lemma_unplaced_stays<T>(s: State<T>, i: int, fresh: usize)
    requires
        s.inv(),
        0 <= i < s.ops.len(),
        !claims(s, i),
    ensures
        s.next(i, fresh).ops.len() == s.ops.len(),
        forall|j: int| 0 <= j < s.ops.len() && j != i ==> #[trigger] s.next(i, fresh).ops[j]
            == s.ops[j],
        s.next(i, fresh).ops[i].task == s.ops[i].task,
        s.next(i, fresh).ops[i].pc is Idle <==> s.ops[i].pc is Idle,
        s.ops[i].task == Task::Push && s.next(i, fresh).ops[i].pc.carries() ==> s.ops[i].pc.carries()
            && s.next(i, fresh).ops[i].value == s.ops[i].value,
        unplaced(s.next(i, fresh).ops[i]) == unplaced(s.ops[i]),
        s.next(i, fresh).ops[i].pc is Swap ==> s.ops[i].pc is Lock && !s.clearing,
        s.next(i, fresh).ops[i].pc !is Unlock,
        !s.next(i, fresh).clearing ==> !s.clearing || s.ops[i].pc is Unlock,
{
    assert(s.op_ok(s.ops[i]));
}

/// A step that gives no push a place.
#[verifier::spinoff_prover]
#[verifier::rlimit(40)]
proof fn lemma_told_step<T>(events: Seq<Event<T>>)
    requires
        is_run(events),
        events.len() > 0,
        events.last() is Step,
        !claims(run(events.drop_last()), events.last()->Step_ticket),
        told_apart(events.drop_last()),
    ensures
        told_apart(events),
{
    let rest = events.drop_last();
    let s = run(rest);
    let t = run(events);
    let i = events.last()->Step_ticket;
    law_run_keeps_order(rest);
    lemma_unplaced_stays(s, i, events.last()->fresh);
    assert(places(rest).there.len() == 0 || !(s.ops[i].pc is Swap));
    assert forall|p: int| #[trigger] places(events).has(p) == places(rest).has(p) by {}
    assert(places(events).apart());
    assert forall|j: int| 0 <= j < t.ops.len() implies #[trigger] carried_out(events, t, j) by {
        assert(carried_out(rest, s, j));
        assert(started(events, j) == started(rest, j));
        if j != i {
            assert(t.ops[j] == s.ops[j]);
        }
    }
    assert forall|p: int| #[trigger] is_push(events, p) implies places(events).has(p) || on_its_way(
        events,
        t,
        p,
    ) by {
        assert(is_push(rest, p));
        if !places(rest).has(p) {
            let j = choose|j: int|
                0 <= j < s.ops.len() && unplaced(#[trigger] s.ops[j]) && started(rest, j) == p;
            assert(unplaced(t.ops[j]));
            assert(started(events, j) == started(rest, j));
        }
    }
    assert forall|p: int| #[trigger] places(events).has(p) implies is_push(events, p) by {
        assert(is_push(rest, p));
    }
    assert forall|j: int|
        0 <= j < t.ops.len() && ((#[trigger] t.ops[j]).pc is Swap
            || t.ops[j].pc is Unlock) implies places(events).there.len() == 0 by {
        if j != i {
            assert(t.ops[j] == s.ops[j]);
            if s.ops[i].pc.locks() {
                law_one_clearer(s, i, j);
            }
        }
    }
}

/// A step that gives a push its place.
#[verifier::spinoff_prover]
#[verifier::rlimit(40)]
proof fn lemma_told_claim<T>(events: Seq<Event<T>>)
    requires
        is_run(events),
        events.len() > 0,
        events.last() is Step,
        claims(run(events.drop_last()), events.last()->Step_ticket),
        told_apart(events.drop_last()),
    ensures
        told_apart(events),
{
    let rest = events.drop_last();
    let s = run(rest);
    let t = run(events);
    let i = events.last()->Step_ticket;
    let x = started(rest, i);
    law_run_keeps_order(rest);
    assert(s.op_ok(s.ops[i]));
    assert(carried_out(rest, s, i));
    assert(!places(rest).has(x));
    lemma_push_contains(places(rest).here, x);
    lemma_push_contains(places(rest).there, x);
    assert forall|p: int| #[trigger] places(events).has(p) == (places(rest).has(p) || p == x) by {}
    assert(places(events).apart());
    assert forall|j: int| 0 <= j < t.ops.len() implies #[trigger] carried_out(events, t, j) by {
        assert(carried_out(rest, s, j));
        assert(started(events, j) == started(rest, j));
        lemma_started(rest, j);
        lemma_started(rest, i);
        if j != i {
            assert(t.ops[j] == s.ops[j]);
        }
    }
    assert forall|p: int| #[trigger] is_push(events, p) implies places(events).has(p) || on_its_way(
        events,
        t,
        p,
    ) by {
        assert(is_push(rest, p));
        if !places(events).has(p) {
            let j = choose|j: int|
                0 <= j < s.ops.len() && unplaced(#[trigger] s.ops[j]) && started(rest, j) == p;
            assert(j != i);
            assert(t.ops[j] == s.ops[j]);
            assert(started(events, j) == started(rest, j));
        }
    }
    assert forall|p: int| #[trigger] places(events).has(p) implies is_push(events, p) by {
        assert(is_push(rest, x));
        if p != x {
            assert(is_push(rest, p));
        }
    }
    assert forall|j: int|
        0 <= j < t.ops.len() && ((#[trigger] t.ops[j]).pc is Swap
            || t.ops[j].pc is Unlock) implies places(events).there.len() == 0 by {
        assert(t.ops[j] == s.ops[j]);
        assert(s.op_ok(s.ops[j]));
    }
}

proof fn lemma_told_apart<T>(events: Seq<Event<T>>)
    requires
        is_run(events),
    ensures
        told_apart(events),
    decreases events.len(),
{
    if events.len() > 0 {
        lemma_told_apart(events.drop_last());
        match events.last() {
            Event::Begin { .. } => lemma_told_begin(events),
            Event::Step { ticket, .. } => if claims(run(events.drop_last()), ticket) {
                lemma_told_claim(events);
            } else {
                lemma_told_step(events);
            },
            _ => lemma_told_other(events),
        }
    }
}

/// The lines hold the values of the pushes that have got a place there.
pub open spec fn lined_up<T>(events: Seq<Event<T>>) -> bool {
    let s = run(events);
    &&& line(s, s.attached) == values(events, places(events).here)
    &&& forall|i: int|
        0 <= i < s.ops.len() && (#[trigger] s.ops[i]).pc.locks() ==> clear_line(s, i)
            == values(events, places(events).there)
}

/// What happens later does not change the values of pushes.
proof fn lemma_values_stay<T>(events: Seq<Event<T>>, pushes: Seq<int>)
    requires
        events.len() > 0,
        forall|p: int| #[trigger] pushes.contains(p) ==> 0 <= p < events.len() - 1,
    ensures
        values(events, pushes) == values(events.drop_last(), pushes),
{
    assert forall|k: int| 0 <= k < pushes.len() implies values(events, pushes)[k] == values(
        events.drop_last(),
        pushes,
    )[k] by {
        assert(pushes.contains(pushes[k]));
    }
    assert(values(events, pushes) =~= values(events.drop_last(), pushes));
}

/// Events other than steps leave the lines as they are, but for a line that is handed over.
#[verifier::spinoff_prover]
#[verifier::rlimit(40)]
proof fn lemma_lined_up_other<T>(events: Seq<Event<T>>)
    requires
        is_run(events),
        events.len() > 0,
        !(events.last() is Step),
        lined_up(events.drop_last()),
    ensures
        lined_up(events),
{
    let rest = events.drop_last();
    let s = run(rest);
    let t = run(events);
    let before = places(rest);
    law_run_keeps_order(rest);
    law_run_keeps_order(events);
    lemma_told_apart(rest);
    lemma_told_apart(events);
    assert forall|p: int| before.here.contains(p) || before.there.contains(p) implies is_push(
        rest,
        p,
    ) by {
        assert(before.has(p));
    }
    lemma_values_stay(events, before.here);
    lemma_values_stay(events, before.there);
    let i = match events.last() {
        Event::Begin { ticket, .. } => ticket,
        Event::Abandon { ticket } => ticket,
        Event::HandOver { ticket } => ticket,
        Event::Finish { ticket } => ticket,
        _ => 0,
    };
    if i < s.ops.len() {
        assert(s.op_ok(s.ops[i]));
    }
    assert forall|j: int|
        0 <= j < s.ops.len() && (#[trigger] s.ops[j].pc.pending()) is Some implies j < t.ops.len()
        && t.ops[j] == s.ops[j] by {}
    lemma_other_event(s, t, s.attached);
    lemma_other_event(s, t, s.detached);
    assert forall|j: int| 0 <= j < t.ops.len() && (#[trigger] t.ops[j]).pc.locks() implies clear_line(
        t,
        j,
    ) == values(events, places(events).there) by {
        if events.last() is HandOver {
            if j != i {
                assert(t.ops[j] == s.ops[j]);
                law_one_clearer(s, i, j);
            }
            assert(clear_line(t, j) =~= values(events, places(events).there));
        } else {
            assert(j != i);
            assert(t.ops[j] == s.ops[j]);
        }
    }
}

/// Steps do to the lines what they do to the places.
#[verifier::spinoff_prover]
#[verifier::rlimit(40)]
proof fn lemma_lined_up_step<T>(events: Seq<Event<T>>)
    requires
        is_run(events),
        events.len() > 0,
        events.last() is Step,
        lined_up(events.drop_last()),
    ensures
        lined_up(events),
{
    let rest = events.drop_last();
    let s = run(rest);
    let t = run(events);
    let before = places(rest);
    let after = places(events);
    let i = events.last()->Step_ticket;
    let fresh = events.last()->fresh;
    let op = s.ops[i];
    law_run_keeps_order(rest);
    lemma_told_apart(rest);
    lemma_told_apart(events);
    assert forall|p: int| before.here.contains(p) || before.there.contains(p) implies is_push(
        rest,
        p,
    ) by {
        assert(before.has(p));
    }
    lemma_values_stay(events, before.here);
    lemma_values_stay(events, before.there);
    law_step_on_lines(s, i, fresh);
    assert(s.op_ok(op));
    if claims(s, i) {
        assert(carried_out(rest, s, i));
        let x = started(rest, i);
        let value = op.value->0;
        assert(events[x] == rest[x]);
        assert(values(events, before.here.push(x)) =~= values(events, before.here).push(value));
        assert(values(events, before.there.push(x)) =~= values(events, before.there).push(value));
    }
    assert(line(t, t.attached) =~= values(events, after.here));
    assert forall|j: int| 0 <= j < t.ops.len() && (#[trigger] t.ops[j]).pc.locks() implies clear_line(
        t,
        j,
    ) == values(events, after.there) by {
        law_step_on_clear_line(s, i, j, fresh);
        if op.pc is Lock && !s.clearing {
            assert(values(events, after.there) =~= Seq::<T>::empty());
        } else {
            assert(s.ops[j].pc.locks() || op.pc is Swap);
        }
    }
}

/// In every run, the lines hold the values of the pushes that have got a place there, in order; no
/// push has two places; and every push that has begun has a place or is on its way to one.
pub proof fn law_pushes_get_places<T>(events: Seq<Event<T>>)
    requires
        is_run(events),
    ensures
        lined_up(events),
        places(events).whole().no_duplicates(),
        forall|p: int| #[trigger] places(events).whole().contains(p) ==> is_push(events, p),
        forall|p: int| #[trigger]
            is_push(events, p) ==> places(events).whole().contains(p) || on_its_way(
                events,
                run(events),
                p,
            ),
    decreases events.len(),
{
    lemma_told_apart(events);
    let all = places(events);
    lemma_concat_contains(all.out, all.there);
    lemma_concat_contains(all.out + all.there, all.here);
    lemma_concat_apart(all.out, all.there);
    lemma_concat_apart(all.out + all.there, all.here);
    assert forall|p: int| #[trigger] all.whole().contains(p) == all.has(p) by {}
    if events.len() == 0 {
        assert(line(run(events), run(events).attached) =~= values(events, all.here));
    } else {
        law_pushes_get_places(events.drop_last());
        if events.last() is Step {
            lemma_lined_up_step(events);
        } else {
            lemma_lined_up_other(events);
        }
    }
}

/// Whether no push that began at a moment or later stands before one that had its place by then.
spec fn in_turn(pushes: Seq<int>, early: Places, moment: int) -> bool {
    forall|a: int, b: int|
        0 <= a < b < pushes.len() && early.has(#[trigger] pushes[b]) ==> #[trigger] pushes[a] < moment
}

/// Whether the pushes of a run are in turn, and will stay so: a push that began at the moment or
/// later can still get a place in the detached list only if none that had its place by then is in
/// the attached list.
spec fn stays_in_turn<T>(events: Seq<Event<T>>, early: Places, moment: int) -> bool {
    let s = run(events);
    let all = places(events);
    &&& forall|p: int| #[trigger] early.has(p) ==> all.has(p)
    &&& in_turn(all.whole(), early, moment)
    &&& forall|i: int, p: int|
        0 <= i < s.ops.len() && #[trigger] holds_detached(s, i) && started(events, i) >= moment
            && #[trigger] early.has(p) ==> !all.here.contains(p)
}

/// A push that is put between two parts of a line stays in turn.
proof fn lemma_put_in_turn(front: Seq<int>, back: Seq<int>, x: int, early: Places, moment: int)
    requires
        in_turn(front + back, early, moment),
        !early.has(x),
        x >= moment ==> forall|p: int| #[trigger] early.has(p) ==> !back.contains(p),
    ensures
        in_turn(front.push(x) + back, early, moment),
{
    let old = front + back;
    let new = front.push(x) + back;
    assert forall|a: int, b: int|
        0 <= a < b < new.len() && early.has(#[trigger] new[b]) implies #[trigger] new[a] < moment by {
        let n = front.len() as int;
        assert(b != n);
        let old_b = if b < n {
            b
        } else {
            b - 1
        };
        assert(old[old_b] == new[b]);
        if a == n {
            assert(back.contains(new[b])) by {
                assert(back[b - n - 1] == new[b]);
            }
        } else {
            let old_a = if a < n {
                a
            } else {
                a - 1
            };
            assert(old[old_a] == new[a]);
        }
    }
}

/// What happens next keeps the pushes in turn.
#[verifier::spinoff_prover]
#[verifier::rlimit(40)]
proof fn lemma_event_in_turn<T>(events: Seq<Event<T>>, early: Places, moment: int)
    requires
        is_run(events),
        events.len() > 0,
        moment < events.len(),
        stays_in_turn(events.drop_last(), early, moment),
    ensures
        stays_in_turn(events, early, moment),
{
    let rest = events.drop_last();
    let s = run(rest);
    let t = run(events);
    let before = places(rest);
    let all = places(events);
    law_run_keeps_order(rest);
    lemma_told_apart(rest);
    match events.last() {
        Event::Step { ticket: i, fresh } => {
            let op = s.ops[i];
            assert(s.op_ok(op));
            if claims(s, i) {
                let x = started(rest, i);
                assert(carried_out(rest, s, i));
                assert(!early.has(x));
                lemma_push_contains(before.here, x);
                lemma_push_contains(before.there, x);
                if s.attached.contains(op.pc.touches()->0) {
                    assert(before.whole() + Seq::<int>::empty() =~= before.whole());
                    lemma_put_in_turn(before.whole(), Seq::empty(), x, early, moment);
                    assert(all.whole() =~= before.whole().push(x) + Seq::<int>::empty());
                } else {
                    assert(holds_detached(s, i));
                    lemma_put_in_turn(before.out + before.there, before.here, x, early, moment);
                    assert(all.whole() =~= (before.out + before.there).push(x) + before.here);
                }
            } else if op.pc is Swap {
                assert(before.there.len() == 0);
                assert(all.whole() =~= before.whole());
            }
            assert forall|j: int, p: int|
                0 <= j < t.ops.len() && #[trigger] holds_detached(t, j) && started(events, j)
                    >= moment && #[trigger] early.has(p) implies !all.here.contains(p) by {
                assert(started(events, j) == started(rest, j));
                if !(op.pc is Swap) {
                    if !holds_detached(s, j) {
                        law_no_hold_is_gained(s, j, i, fresh);
                    }
                    assert(!before.here.contains(p));
                } else if s.tail is None {
                    assert(t.detached == s.detached);
                    assert(s.detached.len() == 0);
                }
            }
        },
        Event::Begin { ticket: i, task, value } => {
            assert forall|j: int, p: int|
                0 <= j < t.ops.len() && #[trigger] holds_detached(t, j) && started(events, j)
                    >= moment && #[trigger] early.has(p) implies !all.here.contains(p) by {
                assert(j != i);
                assert(t.ops[j] == s.ops[j]);
                assert(holds_detached(s, j));
                assert(started(events, j) == started(rest, j));
            }
        },
        _ => {
            lemma_concat_contains(before.out, before.there);
            assert(all.whole() =~= before.whole());
            assert(t.detached == s.detached);
            assert(all.here == before.here);
            assert forall|j: int, p: int|
                0 <= j < t.ops.len() && #[trigger] holds_detached(t, j) && started(events, j)
                    >= moment && #[trigger] early.has(p) implies !all.here.contains(p) by {
                assert(t.ops[j] == s.ops[j] || t.ops[j].pc.touches() is None);
                assert(holds_detached(s, j));
                assert(started(events, j) == started(rest, j));
            }
        },
    }
}

proof fn lemma_in_turn<T>(events: Seq<Event<T>>, moment: int)
    requires
        is_run(events),
        0 <= moment <= events.len(),
    ensures
        stays_in_turn(events, places(events.take(moment)), moment),
        is_run(events.take(moment)),
    decreases events.len(),
{
    if moment == events.len() {
        assert(events.take(moment) =~= events);
        lemma_told_apart(events);
        let all = places(events);
        assert forall|a: int| 0 <= a < all.whole().len() implies #[trigger] all.whole()[a] < moment by {
            lemma_concat_contains(all.out, all.there);
            lemma_concat_contains(all.out + all.there, all.here);
            assert(all.whole().contains(all.whole()[a]));
            assert(all.has(all.whole()[a]));
            assert(is_push(events, all.whole()[a]));
        }
        assert forall|i: int, p: int|
            0 <= i < run(events).ops.len() && #[trigger] holds_detached(run(events), i) && started(
                events,
                i,
            ) >= moment && #[trigger] all.has(p) implies !all.here.contains(p) by {
            lemma_started(events, i);
        }
    } else {
        let rest = events.drop_last();
        lemma_in_turn(rest, moment);
        assert(rest.take(moment) =~= events.take(moment));
        lemma_event_in_turn(events, places(events.take(moment)), moment);
    }
}

/// A push that has got a place keeps having one.
pub proof fn lemma_places_stay<T>(events: Seq<Event<T>>, moment: int)
    requires
        is_run(events),
        0 <= moment <= events.len(),
    ensures
        is_run(events.take(moment)),
        forall|p: int| #[trigger] places(events.take(moment)).has(p) ==> places(events).has(p),
{
    lemma_in_turn(events, moment);
}

/// A push comes to the attached list only when it gets its place.
pub proof fn lemma_event_on_here<T>(events: Seq<Event<T>>, push: int)
    requires
        is_run(events),
        events.len() > 0,
        places(events).here.contains(push),
        places(events.drop_last()).has(push),
    ensures
        places(events.drop_last()).here.contains(push),
{
    let rest = events.drop_last();
    law_run_keeps_order(rest);
    lemma_told_apart(rest);
    if let Event::Step { ticket, .. } = events.last() {
        if claims(run(rest), ticket) {
            assert(run(rest).op_ok(run(rest).ops[ticket]));
            assert(carried_out(rest, run(rest), ticket));
            lemma_push_contains(places(rest).here, started(rest, ticket));
        }
    }
}

/// A push that has finished has got a place.
pub proof fn lemma_finished_has_place<T>(
    events: Seq<Event<T>>,
    push: int,
    finished: int,
    moment: int,
)
    requires
        is_run(events),
        is_push(events, push),
        push < finished < moment <= events.len(),
        events[finished] is Finish,
        started(events.take(finished), events[finished]->Finish_ticket) == push,
    ensures
        places(events.take(moment)).has(push),
{
    let ticket = events[finished]->Finish_ticket;
    let before = events.take(finished);
    let after = events.take(finished + 1);
    lemma_in_turn(events, finished + 1);
    assert(after.drop_last() =~= before);
    assert(after.last() == events[finished]);
    lemma_told_apart(before);
    assert(carried_out(before, run(before), ticket));
    assert(is_push(before, push));
    assert(places(before).has(push)) by {
        if !places(before).has(push) {
            assert(on_its_way(before, run(before), push));
            let i = choose|i: int|
                0 <= i < run(before).ops.len() && unplaced(#[trigger] run(before).ops[i]) && started(
                    before,
                    i,
                ) == push;
            lemma_started(before, i);
            lemma_started(before, ticket);
        }
    }
    let mid = events.take(moment);
    lemma_in_turn(events, moment);
    lemma_in_turn(mid, finished);
    assert(mid.take(finished) =~= before);
}

/// A push that had its place before another one began comes before it, whatever the other
/// operations do: it is handed over earlier, or it is in an older block, or it is in an earlier slot
/// of the same block.
pub proof fn law_earlier_pushes_come_first<T>(
    events: Seq<Event<T>>,
    earlier: int,
    later: int,
    a: int,
    b: int,
)
    requires
        is_run(events),
        0 <= later < events.len(),
        places(events.take(later)).whole().contains(earlier),
        0 <= a < places(events).whole().len(),
        0 <= b < places(events).whole().len(),
        places(events).whole()[a] == earlier,
        places(events).whole()[b] == later,
    ensures
        a < b,
{
    let early = places(events.take(later));
    lemma_in_turn(events, later);
    lemma_concat_contains(early.out, early.there);
    lemma_concat_contains(early.out + early.there, early.here);
    assert(early.has(earlier));
    if b < a {
        assert(early.has(places(events).whole()[a]));
        assert(places(events).whole()[b] < later);
    }
    if a == b {
        law_pushes_get_places(events.take(later));
        assert(is_push(events.take(later), earlier));
    }
}

/// The values of one thread stay in the order of its pushes, however many threads push, read and
/// clear at the same time: a push that has finished before another one begins comes before it.
pub proof fn law_finished_pushes_come_first<T>(
    events: Seq<Event<T>>,
    earlier: int,
    finished: int,
    later: int,
    a: int,
    b: int,
)
    requires
        is_run(events),
        is_push(events, earlier),
        earlier < finished < later < events.len(),
        events[finished] is Finish,
        started(events.take(finished), events[finished]->Finish_ticket) == earlier,
        0 <= a < places(events).whole().len(),
        0 <= b < places(events).whole().len(),
        places(events).whole()[a] == earlier,
        places(events).whole()[b] == later,
    ensures
        a < b,
{
    let mid = events.take(later);
    lemma_finished_has_place(events, earlier, finished, later);
    let early = places(mid);
    lemma_concat_contains(early.out, early.there);
    lemma_concat_contains(early.out + early.there, early.here);
    law_earlier_pushes_come_first(events, earlier, later, a, b);
}

/// Whether every push has got its place before the next one begins.
pub open spec fn one_writer<T>(events: Seq<Event<T>>) -> bool {
    forall|p: int, i: int|
        #![trigger is_push(events, p), run(events.take(p)).ops[i]]
        is_push(events, p) && 0 <= i < run(events.take(p)).ops.len() ==> !unplaced(
            run(events.take(p)).ops[i],
        )
}

/// The values of one writer stay in the order of its pushes while others read and clear: first those
/// that have been handed over, then those of the detached list, then those of the attached list.
pub proof fn law_one_writer_order<T>(events: Seq<Event<T>>)
    requires
        is_run(events),
        one_writer(events),
    ensures
        forall|a: int, b: int|
            0 <= a < b < places(events).whole().len() ==> #[trigger] places(events).whole()[a]
                < #[trigger] places(events).whole()[b],
{
    let whole = places(events).whole();
    law_pushes_get_places(events);
    assert forall|a: int, b: int| 0 <= a < b < whole.len() implies #[trigger] whole[a]
        < #[trigger] whole[b] by {
        let x = whole[a];
        let y = whole[b];
        assert(whole.contains(x) && whole.contains(y));
        assert(is_push(events, x) && is_push(events, y));
        if y < x {
            let mid = events.take(x);
            lemma_in_turn(events, x);
            law_pushes_get_places(mid);
            assert(is_push(mid, y));
            assert(!on_its_way(mid, run(mid), y));
            law_earlier_pushes_come_first(events, y, x, b, a);
        }
    }
}

/// Once all operations have finished, every push has exactly one place, the attached list holds the
/// values of the pushes that have not been handed over, and reading its blocks oldest first gives
/// them in the order of their places.  All blocks but the newest one are full, and the newest one is
/// not empty.
pub proof fn law_quiet_order<T>(events: Seq<Event<T>>)
    requires
        is_run(events),
        run(events).quiet(),
    ensures
        places(events).there.len() == 0,
        run(events).contents().reverse().flatten() == values(events, places(events).here),
        forall|p: int| #[trigger] is_push(events, p) <==> places(events).whole().contains(p),
        places(events).whole().no_duplicates(),
        forall|k: int|
            0 < k < run(events).contents().len() ==> #[trigger] run(events).contents()[k].len()
                == BLOCK_SIZE,
        run(events).contents().len() > 0 ==> 0 < run(events).contents()[0].len() <= BLOCK_SIZE,
{
    let s = run(events);
    law_run_keeps_order(events);
    law_run_wants_newest(events);
    law_pushes_get_places(events);
    lemma_told_apart(events);
    law_quiet(s);
    assert forall|p: int| #[trigger] is_push(events, p) implies places(events).whole().contains(
        p,
    ) by {
        assert(!on_its_way(events, s, p));
    }
    assert forall|k: int| 0 <= k < s.attached.len() implies s.block(
        #[trigger] s.attached[k],
    ).valid() && s.block(s.attached[k]).quiesced() by {
        assert(s.attached.contains(s.attached[k]));
        assert(s.has(s.attached[k]));
    }
    lemma_quiet_line(s, s.attached);
    assert forall|k: int| 0 < k < s.contents().len() implies #[trigger] s.contents()[k].len()
        == BLOCK_SIZE by {
        assert(s.linked(s.attached, k));
        assert(s.block(s.attached[k]).valid());
        lemma_quiesced(s.block(s.attached[k]));
    }
    if s.attached.len() > 0 {
        assert(s.linked(s.attached, 0));
        assert(s.block(s.attached[0]).valid());
        lemma_quiesced(s.block(s.attached[0]));
    }
}

/// A clearing operation hands over the values of the detached list in the order of their places,
/// when its blocks are read oldest first.
pub proof fn law_hand_over_order<T>(events: Seq<Event<T>>, i: int)
    requires
        is_run(events),
        0 <= i < run(events).ops.len(),
        run(events).ops[i].pc is HandOver,
    ensures
        line_taken(run(events).ops[i].taken) == values(events, places(events).there),
{
    let s = run(events);
    law_run_keeps_order(events);
    law_pushes_get_places(events);
    assert(s.op_ok(s.ops[i]));
    assert(s.detached.len() == 0);
    assert(clear_line(s, i) =~= line_taken(s.ops[i].taken));
}

/// Where a clearing operation has got to that began with the event `began` and detached the list
/// with the event `detached`: it has not handed the list over yet, and only operations that began
/// before the list was detached have a place in it or hold of it; or it has handed the list over.
spec fn list_is_closed<T>(events: Seq<Event<T>>, i: int, began: int, detached: int) -> bool {
    let s = run(events);
    let pc = s.ops[i].pc;
    &&& 0 <= i < s.ops.len()
    &&& {
        ||| {
            &&& started(events, i) == began
            &&& pc is Flip || pc is Drain || pc is Collect || pc is HandOver
            &&& forall|p: int| #[trigger] places(events).there.contains(p) ==> p < detached
            &&& forall|j: int|
                0 <= j < s.ops.len() && #[trigger] holds_detached(s, j) ==> started(events, j)
                    < detached
        }
        ||| started(events, i) == began && (pc is Unlock || pc is Done || pc is Idle)
        ||| started(events, i) > detached
    }
}

/// Only steps and hand-overs change which pushes have a place.
proof fn lemma_same_there<T>(events: Seq<Event<T>>)
    requires
        events.len() > 0,
        !(events.last() is Step),
        !(events.last() is HandOver),
    ensures
        forall|p: int| #[trigger]
            places(events).there.contains(p) ==> places(events.drop_last()).there.contains(p),
{
    assert(places(events) == places(events.drop_last()));
}

#[verifier::spinoff_prover]
#[verifier::rlimit(40)]
proof fn lemma_event_keeps_closed<T>(events: Seq<Event<T>>, i: int, began: int, detached: int)
    requires
        is_run(events),
        events.len() > 0,
        began < detached < events.len() - 1,
        list_is_closed(events.drop_last(), i, began, detached),
    ensures
        list_is_closed(events, i, began, detached),
{
    let rest = events.drop_last();
    let s = run(rest);
    let t = run(events);
    let pc = s.ops[i].pc;
    law_run_keeps_order(rest);
    assert(s.op_ok(s.ops[i]));
    lemma_started(rest, i);
    match events.last() {
        Event::Begin { ticket, .. } => {
            lemma_same_there(events);
            if started(rest, i) == began && pc.locks() {
                assert forall|j: int| 0 <= j < t.ops.len() && #[trigger] holds_detached(
                    t,
                    j,
                ) implies started(events, j) < detached by {
                    assert(j != ticket);
                    assert(t.ops[j] == s.ops[j]);
                    assert(holds_detached(s, j));
                }
            }
        },
        Event::Step { ticket: j, fresh } => {
            assert(s.op_ok(s.ops[j]));
            assert(started(events, i) == started(rest, i));
            if started(rest, i) == began && (pc is Flip || pc is Drain || pc is Collect
                || pc is HandOver) {
                if j != i && s.ops[j].pc.locks() {
                    law_one_clearer(s, i, j);
                }
                assert(!(s.ops[j].pc is Swap));
                if claims(s, j) && !s.attached.contains(s.ops[j].pc.touches()->0) {
                    assert(holds_detached(s, j));
                    lemma_push_contains(places(rest).there, started(rest, j));
                }
                assert forall|p: int| #[trigger] places(events).there.contains(p) implies p
                    < detached by {
                    if !places(rest).there.contains(p) {
                        assert(p == started(rest, j));
                    }
                }
                assert forall|l: int| 0 <= l < t.ops.len() && #[trigger] holds_detached(
                    t,
                    l,
                ) implies started(events, l) < detached by {
                    assert(started(events, l) == started(rest, l));
                    if !holds_detached(s, l) {
                        law_no_hold_is_gained(s, l, j, fresh);
                    }
                }
            }
        },
        Event::HandOver { ticket } => {
            if pc.locks() {
                law_one_clearer(s, i, ticket);
            }
        },
        Event::Abandon { ticket } => {
            lemma_same_there(events);
            assert forall|j: int| 0 <= j < t.ops.len() && #[trigger] holds_detached(
                t,
                j,
            ) implies holds_detached(s, j) && started(events, j) == started(rest, j) by {}
        },
        Event::Finish { ticket } => {
            lemma_same_there(events);
            assert forall|j: int| 0 <= j < t.ops.len() && #[trigger] holds_detached(
                t,
                j,
            ) implies holds_detached(s, j) && started(events, j) == started(rest, j) by {}
        },
    }
}

proof fn lemma_closed<T>(events: Seq<Event<T>>, i: int, detached: int)
    requires
        is_run(events),
        0 <= detached < events.len(),
        events[detached] is Step,
        events[detached]->Step_ticket == i,
        run(events.take(detached)).ops[i].pc is Swap,
    ensures
        list_is_closed(events, i, started(events.take(detached), i), detached),
    decreases events.len(),
{
    let before = events.take(detached);
    let rest = events.drop_last();
    lemma_started(before, i);
    if detached == events.len() - 1 {
        let s = run(rest);
        let t = run(events);
        assert(before =~= rest);
        law_run_keeps_order(rest);
        lemma_told_apart(rest);
        assert(s.op_ok(s.ops[i]));
        assert forall|p: int| #[trigger] places(events).there.contains(p) implies p < detached by {
            assert(places(rest).has(p));
            assert(is_push(rest, p));
        }
        assert forall|j: int| 0 <= j < t.ops.len() && #[trigger] holds_detached(
            t,
            j,
        ) implies started(events, j) < detached by {
            lemma_started(rest, j);
        }
    } else {
        assert(rest.take(detached) =~= before);
        lemma_closed(rest, i, detached);
        lemma_event_keeps_closed(events, i, started(before, i), detached);
    }
}

/// A clear leaves alone what is pushed after it has detached the list: a push that begins after that
/// step of a clearing operation is not among those that the operation hands over, whatever the
/// interleaving.
pub proof fn law_clear_leaves_later_pushes<T>(
    events: Seq<Event<T>>,
    i: int,
    detached: int,
    handed_over: int,
    push: int,
)
    requires
        is_run(events),
        0 <= detached < handed_over < events.len(),
        // With the event `detached`, the operation detaches the list...
        events[detached] is Step,
        events[detached]->Step_ticket == i,
        run(events.take(detached)).ops[i].pc is Swap,
        // ... and with the event `handed_over`, the same operation hands it over.
        events[handed_over] is HandOver,
        events[handed_over]->HandOver_ticket == i,
        started(events.take(handed_over), i) == started(events.take(detached), i),
        push > detached,
    ensures
        !places(events.take(handed_over)).there.contains(push),
{
    let mid = events.take(handed_over);
    let after = events.take(handed_over + 1);
    lemma_in_turn(events, handed_over);
    lemma_in_turn(events, handed_over + 1);
    assert(after.drop_last() =~= mid);
    assert(after.last() == events[handed_over]);
    assert(mid.take(detached) =~= events.take(detached));
    lemma_closed(mid, i, detached);
    lemma_started(events.take(detached), i);
}

/// A push that has been handed over was handed over with an event.
proof fn lemma_handed_over_with<T>(events: Seq<Event<T>>, push: int) -> (h: int)
    requires
        is_run(events),
        places(events).out.contains(push),
    ensures
        0 <= push < h < events.len(),
        events[h] is HandOver,
        places(events.take(h)).there.contains(push),
    decreases events.len(),
{
    let rest = events.drop_last();
    assert(events.len() > 0) by {
        if events.len() == 0 {
            assert(places(events).out.len() == 0);
        }
    }
    lemma_told_apart(rest);
    lemma_concat_contains(places(rest).out, places(rest).there);
    if !(events.last() is HandOver) {
        assert(places(events).out == places(rest).out);
    }
    if places(rest).out.contains(push) {
        let h = lemma_handed_over_with(rest, push);
        assert(rest.take(h) =~= events.take(h));
        h
    } else {
        let h = events.len() - 1;
        assert(events.take(h) =~= rest);
        assert(places(rest).has(push));
        assert(is_push(rest, push));
        h
    }
}

/// A value that is pushed after a clear has detached the list, and that no other clear takes, is
/// there to be read when all operations have finished.
pub proof fn law_later_push_stays<T>(
    events: Seq<Event<T>>,
    i: int,
    detached: int,
    handed_over: int,
    push: int,
)
    requires
        is_run(events),
        run(events).quiet(),
        0 <= detached < handed_over < events.len(),
        // With the event `detached`, the operation detaches the list...
        events[detached] is Step,
        events[detached]->Step_ticket == i,
        run(events.take(detached)).ops[i].pc is Swap,
        // ... and with the event `handed_over`, the same operation hands it over...
        events[handed_over] is HandOver,
        events[handed_over]->HandOver_ticket == i,
        started(events.take(handed_over), i) == started(events.take(detached), i),
        // ... and nothing else is handed over after the push has begun.
        is_push(events, push),
        push > detached,
        forall|h: int| push < h < events.len() && #[trigger] events[h] is HandOver ==> h
            == handed_over,
    ensures
        places(events).here.contains(push),
        run(events).contents().flatten().contains(events[push]->value->0),
{
    let s = run(events);
    let all = places(events);
    law_quiet_order(events);
    law_clear_leaves_later_pushes(events, i, detached, handed_over, push);
    lemma_concat_contains(all.out, all.there);
    lemma_concat_contains(all.out + all.there, all.here);
    assert(all.whole().contains(push));
    if all.out.contains(push) {
        let h = lemma_handed_over_with(events, push);
    }
    let value = events[push]->value->0;
    let k = choose|k: int| 0 <= k < all.here.len() && all.here[k] == push;
    assert(values(events, all.here)[k] == value);
    assert(s.contents().reverse().flatten()[k] == value);
    let (a, b) = lemma_flatten_source(s.contents().reverse(), k);
    let block = s.contents().len() - 1 - a;
    assert(s.contents()[block][b] == value);
    lemma_flatten_contains(s.contents(), block);
    assert(s.contents()[block].contains(value));
}

/// Clears of a stripe are serialized: from the moment when a clearing operation has taken the lock
/// until it gives it back, no other one takes the lock, detaches a list or hands one over.
pub proof fn law_clears_are_serialized<T>(events: Seq<Event<T>>, i: int)
    requires
        is_run(events),
        events.len() > 0,
        0 <= i < run(events.drop_last()).ops.len(),
        run(events.drop_last()).ops[i].pc.locks(),
    ensures
        events.last() matches Event::HandOver { ticket } ==> ticket == i,
        events.last() matches Event::Step { ticket, .. } ==> ticket != i ==> {
            &&& !run(events).ops[ticket].pc.locks()
            &&& run(events).ops[i] == run(events.drop_last()).ops[i]
        },
{
    let s = run(events.drop_last());
    law_run_keeps_order(events.drop_last());
    match events.last() {
        Event::HandOver { ticket } => law_one_clearer(s, i, ticket),
        Event::Step { ticket, .. } => {
            if ticket != i {
                if s.ops[ticket].pc.locks() {
                    law_one_clearer(s, i, ticket);
                }
                lemma_tally_covers(s.ops, lockers(), i);
            }
        },
        _ => {},
    }
}

} // verus!
