//! What a finished read has seen, in every run.
use crate::block::lemma_quiesced;
use crate::laws::{
    law_delivered_is_settled, law_read_starts_with_the_list, law_read_visits_the_list, reading,
};
use crate::lines::{
    lemma_line_of, lemma_other_event_on_block, lemma_quiesced_line, line, line_of,
};
use crate::model::{in_cell, in_slot, Pc, State, Task};
use crate::places::{
    is_push, law_pushes_get_places, lemma_event_on_here, lemma_finished_has_place,
    lemma_places_stay, lemma_started, places, started, values,
};
use crate::probes::loaded;
use crate::protocol::lemma_touchable;
use crate::runs::{
    all_handed_out, all_pushed_in, is_run, law_run_keeps_order, law_run_keeps_values,
    lemma_run_prefix, run, Event,
};
use crate::sums::lemma_gather_covers;
use vstd::prelude::*;

verus! {

/// The data that the operation with a ticket has been given to look at, one visit after the other.
pub open spec fn seen<T>(events: Seq<Event<T>>, ticket: int) -> Seq<Seq<T>>
    decreases events.len(),
{
    if events.len() == 0 {
        Seq::empty()
    } else {
        let rest = events.drop_last();
        let s = run(events);
        match events.last() {
            Event::Begin { ticket: begun, .. } if begun == ticket => Seq::empty(),
            Event::Step { ticket: stepped, .. } if stepped == ticket
                && s.ops[ticket].pc is Deliver => seen(rest, ticket).push(
                s.block(s.ops[ticket].pc.touches()->0).data(),
            ),
            _ => seen(rest, ticket),
        }
    }
}

/// Whether the operation with a ticket has been made to visit no more blocks.
pub open spec fn abandoned<T>(events: Seq<Event<T>>, ticket: int) -> bool
    decreases events.len(),
{
    if events.len() == 0 {
        false
    } else {
        match events.last() {
            Event::Begin { ticket: begun, .. } if begun == ticket => false,
            Event::Abandon { ticket: left } if left == ticket => true,
            _ => abandoned(events.drop_last(), ticket),
        }
    }
}

/// Whether visits are those of the attached blocks as they were at a moment of the operation with a
/// ticket: each of the blocks has been visited, once, newest first, and with all values that had got
/// a place in it by that moment.
pub open spec fn saw_all_at<T>(
    events: Seq<Event<T>>,
    i: int,
    visits: Seq<Seq<T>>,
    moment: int,
) -> bool {
    let s = run(events.take(moment));
    &&& started(events, i) < moment <= events.len()
    &&& visits.len() == s.attached.len()
    &&& forall|k: int|
        0 <= k < visits.len() ==> line_of(s, s.attached[k]).is_prefix_of(#[trigger] visits[k])
}

/// Whether the blocks of a list from a number on have kept their lines.
spec fn lines_kept<T>(before: State<T>, after: State<T>, list: Seq<usize>, k: int) -> bool {
    forall|n: int|
        k <= n < list.len() ==> line_of(before, #[trigger] list[n]).is_prefix_of(
            line_of(after, list[n]),
        )
}

/// Whether the visits so far are those of the blocks of a list up to a number.
spec fn saw_first<T>(before: State<T>, list: Seq<usize>, visits: Seq<Seq<T>>, k: int) -> bool {
    &&& visits.len() == k
    &&& forall|n: int|
        0 <= n < k ==> line_of(before, list[n]).is_prefix_of(#[trigger] visits[n])
}

/// What a reading operation has seen so far.
spec fn read_so_far<T>(events: Seq<Event<T>>, i: int) -> bool {
    let s = run(events);
    let m = loaded(events, i);
    let before = run(events.take(m));
    let list = before.attached;
    let visits = seen(events, i);
    let k = visits.len() as int;
    match s.ops[i].pc {
        Pc::Measure { .. } => {
            &&& started(events, i) < m <= events.len()
            &&& reading(s, i, list, k)
            &&& lines_kept(before, s, list, k)
            &&& saw_first(before, list, visits, k)
        },
        Pc::Compare { .. } => {
            &&& started(events, i) < m <= events.len()
            &&& reading(s, i, list, k)
            &&& lines_kept(before, s, list, k)
            &&& saw_first(before, list, visits, k)
        },
        Pc::Deliver { .. } => {
            &&& started(events, i) < m <= events.len()
            &&& reading(s, i, list, k - 1)
            &&& lines_kept(before, s, list, k - 1)
            &&& saw_first(before, list, visits, k)
        },
        Pc::Advance { .. } => {
            &&& started(events, i) < m <= events.len()
            &&& reading(s, i, list, k - 1)
            &&& lines_kept(before, s, list, k - 1)
            &&& saw_first(before, list, visits, k)
        },
        Pc::Exit { .. } => exists|m: int| #[trigger] saw_all_at(events, i, visits, m),
        Pc::Done { .. } => exists|m: int| #[trigger] saw_all_at(events, i, visits, m),
        _ => k == 0,
    }
}

/// A prefix of a prefix is a prefix.
proof fn lemma_prefix_on<A>(a: Seq<A>, b: Seq<A>, c: Seq<A>)
    requires
        a.is_prefix_of(b),
        b.is_prefix_of(c),
    ensures
        a.is_prefix_of(c),
{
    assert(a =~= c.subrange(0, a.len() as int));
}

proof fn lemma_still_saw_all<T>(events: Seq<Event<T>>, i: int, visits: Seq<Seq<T>>)
    requires
        events.len() > 0,
        started(events, i) == started(events.drop_last(), i),
        exists|m: int| #[trigger] saw_all_at(events.drop_last(), i, visits, m),
    ensures
        exists|m: int| #[trigger] saw_all_at(events, i, visits, m),
{
    let rest = events.drop_last();
    lemma_started(rest, i);
    let m = choose|m: int| #[trigger] saw_all_at(rest, i, visits, m);
    assert(rest.take(m) =~= events.take(m));
    assert(saw_all_at(events, i, visits, m));
}

/// A step puts at most one value at the end of the line of a block.
proof fn lemma_line_only_grows<T>(s: State<T>, j: int, fresh: usize, address: usize)
    requires
        s.inv(),
        s.next(j, fresh).inv(),
        0 <= j < s.ops.len(),
        s.vacant(fresh),
        s.has(address),
        s.next(j, fresh).has(address),
    ensures
        line_of(s, address).is_prefix_of(line_of(s.next(j, fresh), address)),
{
    let t = s.next(j, fresh);
    lemma_line_of(s, j, fresh, address);
    assert(line_of(s, address) =~= line_of(t, address).subrange(
        0,
        line_of(s, address).len() as int,
    ));
}

/// The lines of the blocks that a reading operation has still to visit are kept by every step.
#[verifier::spinoff_prover]
#[verifier::rlimit(40)]
proof fn lemma_step_keeps_lines<T>(
    before: State<T>,
    s: State<T>,
    i: int,
    list: Seq<usize>,
    k: int,
    to: int,
    j: int,
    fresh: usize,
)
    requires
        reading(s, i, list, k),
        0 <= j < s.ops.len(),
        s.vacant(fresh),
        k <= to,
        reading(s.next(j, fresh), i, list, to),
        lines_kept(before, s, list, k),
    ensures
        lines_kept(before, s.next(j, fresh), list, to),
{
    let t = s.next(j, fresh);
    assert forall|n: int| to <= n < list.len() implies line_of(
        before,
        #[trigger] list[n],
    ).is_prefix_of(line_of(t, list[n])) by {
        assert(s.within_reach(s.ops[i].pc.entered()->0, list, n));
        assert(t.within_reach(t.ops[i].pc.entered()->0, list, n));
        lemma_touchable(s, s.ops[i].pc.entered()->0, list[n]);
        lemma_touchable(t, t.ops[i].pc.entered()->0, list[n]);
        lemma_line_only_grows(s, j, fresh, list[n]);
        lemma_prefix_on(line_of(before, list[n]), line_of(s, list[n]), line_of(t, list[n]));
    }
}

/// The next step of the operation itself.
#[verifier::spinoff_prover]
#[verifier::rlimit(60)]
proof fn lemma_own_step_reads<T>(events: Seq<Event<T>>, i: int)
    requires
        is_run(events),
        events.len() > 0,
        events.last() is Step,
        events.last()->Step_ticket == i,
        run(events.drop_last()).ops[i].task == Task::Read,
        read_so_far(events.drop_last(), i),
    ensures
        read_so_far(events, i),
{
    let rest = events.drop_last();
    let s = run(rest);
    let t = run(events);
    let op = s.ops[i];
    let fresh = events.last()->fresh;
    let here = rest.len() as int;
    law_run_keeps_order(rest);
    lemma_started(rest, i);
    assert(s.op_ok(op));
    assert(started(events, i) == started(rest, i));
    assert(events.take(here) =~= rest);
    let m = loaded(rest, i);
    assert(rest.take(m) =~= events.take(m) || m < 0 || m > rest.len());
    let before = run(rest.take(m));
    let list = before.attached;
    let visits = seen(rest, i);
    let k = visits.len() as int;
    match op.pc {
        Pc::LoadTail { .. } => {
            assert(loaded(events, i) == here);
            law_read_starts_with_the_list(s, i, fresh);
            if s.attached.len() == 0 {
                assert(saw_all_at(events, i, seen(events, i), here));
            } else {
                assert(lines_kept(s, t, s.attached, 0)) by {
                    assert forall|n: int| 0 <= n < s.attached.len() implies line_of(
                        s,
                        #[trigger] s.attached[n],
                    ).is_prefix_of(line_of(t, s.attached[n])) by {
                        assert(s.linked(s.attached, n));
                        law_run_keeps_order(events);
                        assert(t.linked(t.attached, n));
                        lemma_line_only_grows(s, i, fresh, s.attached[n]);
                    }
                }
                assert(saw_first(s, s.attached, seen(events, i), 0));
            }
        },
        Pc::Measure { block, .. } => {
            law_read_visits_the_list(s, i, list, k, i, fresh);
            lemma_step_keeps_lines(before, s, i, list, k, k, i, fresh);
            if t.ops[i].pc is Deliver {
                lemma_delivers(before, s, i, list, k, fresh);
                assert(seen(events, i) == visits.push(t.block(block).data()));
            }
        },
        Pc::Compare { block, .. } => {
            law_read_visits_the_list(s, i, list, k, i, fresh);
            lemma_step_keeps_lines(before, s, i, list, k, k, i, fresh);
            if t.ops[i].pc is Deliver {
                lemma_delivers(before, s, i, list, k, fresh);
                assert(seen(events, i) == visits.push(t.block(block).data()));
            }
        },
        Pc::Deliver { .. } => {
            law_read_visits_the_list(s, i, list, k - 1, i, fresh);
            lemma_step_keeps_lines(before, s, i, list, k - 1, k - 1, i, fresh);
        },
        Pc::Advance { .. } => {
            law_read_visits_the_list(s, i, list, k - 1, i, fresh);
            if k < list.len() {
                lemma_step_keeps_lines(before, s, i, list, k - 1, k, i, fresh);
            } else {
                assert(saw_all_at(events, i, visits, m));
            }
        },
        Pc::Exit { .. } => lemma_still_saw_all(events, i, visits),
        Pc::Done { .. } => lemma_still_saw_all(events, i, visits),
        _ => {},
    }
}

/// The data that is handed out of a block has all values that had got a place in it.
proof fn lemma_delivers<T>(
    before: State<T>,
    s: State<T>,
    i: int,
    list: Seq<usize>,
    k: int,
    fresh: usize,
)
    requires
        reading(s, i, list, k),
        lines_kept(before, s, list, k),
        !(s.ops[i].pc is Deliver),
        s.next(i, fresh).ops[i].pc is Deliver,
    ensures
        s.next(i, fresh).ops[i].pc.touches() == Some(list[k]),
        line_of(before, list[k]).is_prefix_of(s.next(i, fresh).block(list[k]).data()),
{
    law_delivered_is_settled(s, i, fresh);
    assert(s.op_ok(s.ops[i]));
    assert(s.block(list[k]).valid());
    lemma_quiesced_line(s, list[k]);
    assert(s.next(i, fresh).heap == s.heap);
}

/// What happens to other operations does not change what a reading operation has seen.
#[verifier::spinoff_prover]
#[verifier::rlimit(60)]
proof fn lemma_other_event_reads<T>(events: Seq<Event<T>>, i: int)
    requires
        is_run(events),
        events.len() > 0,
        0 <= i < run(events.drop_last()).ops.len(),
        run(events).ops[i] == run(events.drop_last()).ops[i],
        !(events.last() matches Event::Step { ticket, .. } && ticket == i),
        !(events.last() matches Event::Begin { ticket, .. } && ticket == i),
        run(events.drop_last()).ops[i].task == Task::Read,
        read_so_far(events.drop_last(), i),
    ensures
        read_so_far(events, i),
{
    let rest = events.drop_last();
    let s = run(rest);
    let t = run(events);
    let op = s.ops[i];
    law_run_keeps_order(rest);
    law_run_keeps_order(events);
    lemma_started(rest, i);
    assert(s.op_ok(op));
    assert(started(events, i) == started(rest, i));
    assert(seen(events, i) == seen(rest, i));
    let m = loaded(rest, i);
    assert(loaded(events, i) == m);
    assert(rest.take(m) =~= events.take(m) || m < 0 || m > rest.len());
    let before = run(rest.take(m));
    let list = before.attached;
    let visits = seen(rest, i);
    let k = if op.pc is Measure || op.pc is Compare {
        visits.len() as int
    } else {
        visits.len() - 1
    };
    match op.pc {
        Pc::Exit { .. } => lemma_still_saw_all(events, i, visits),
        Pc::Done { .. } => lemma_still_saw_all(events, i, visits),
        _ => {
            if op.pc.touches() is Some {
                assert(reading(s, i, list, k));
                if let Event::Step { ticket, fresh } = events.last() {
                    law_read_visits_the_list(s, i, list, k, ticket, fresh);
                    lemma_step_keeps_lines(before, s, i, list, k, k, ticket, fresh);
                } else {
                    lemma_other_event_keeps_reading(before, s, t, i, list, k);
                }
            }
        },
    }
}

/// Events that are not steps leave the blocks of a reading operation as they are.
proof fn lemma_other_event_keeps_reading<T>(
    before: State<T>,
    s: State<T>,
    t: State<T>,
    i: int,
    list: Seq<usize>,
    k: int,
)
    requires
        reading(s, i, list, k),
        lines_kept(before, s, list, k),
        t.inv(),
        t.heap == s.heap,
        t.attached == s.attached,
        t.detached == s.detached,
        t.stage == s.stage,
        i < t.ops.len(),
        t.ops[i] == s.ops[i],
        forall|j: int|
            0 <= j < s.ops.len() && (#[trigger] s.ops[j].pc.pending()) is Some ==> j < t.ops.len()
                && t.ops[j] == s.ops[j],
    ensures
        reading(t, i, list, k),
        lines_kept(before, t, list, k),
{
    let phase = s.ops[i].pc.entered()->0;
    assert forall|n: int| k <= n < list.len() implies #[trigger] t.within_reach(phase, list, n) by {
        assert(s.within_reach(phase, list, n));
    }
    assert forall|n: int| k <= n < list.len() implies line_of(before, #[trigger] list[n]).is_prefix_of(
        line_of(t, list[n]),
    ) by {
        assert(s.within_reach(phase, list, n));
        lemma_touchable(s, phase, list[n]);
        lemma_other_event_on_block(s, t, list[n]);
    }
}

proof fn lemma_read_so_far<T>(events: Seq<Event<T>>, i: int)
    requires
        is_run(events),
        0 <= i < run(events).ops.len(),
        run(events).ops[i].task == Task::Read,
        !abandoned(events, i),
    ensures
        read_so_far(events, i),
    decreases events.len(),
{
    if events.len() > 0 {
        let rest = events.drop_last();
        let s = run(rest);
        let t = run(events);
        law_run_keeps_order(rest);
        match events.last() {
            Event::Begin { ticket, .. } => {
                if ticket != i {
                    assert(t.ops[i] == s.ops[i]);
                    lemma_read_so_far(rest, i);
                    lemma_other_event_reads(events, i);
                }
            },
            Event::Step { ticket, .. } => {
                assert(s.ops[i].task == t.ops[i].task) by {
                    assert(s.op_ok(s.ops[ticket]));
                }
                lemma_read_so_far(rest, i);
                if ticket == i {
                    lemma_own_step_reads(events, i);
                } else {
                    assert(t.ops[i] == s.ops[i]);
                    lemma_other_event_reads(events, i);
                }
            },
            Event::Abandon { ticket } => {
                assert(ticket != i);
                assert(t.ops[i] == s.ops[i]);
                lemma_read_so_far(rest, i);
                lemma_other_event_reads(events, i);
            },
            Event::HandOver { ticket } => {
                assert(s.op_ok(s.ops[ticket]));
                assert(t.ops[i] == s.ops[i]);
                lemma_read_so_far(rest, i);
                lemma_other_event_reads(events, i);
            },
            Event::Finish { ticket } => {
                assert(t.ops[i] == s.ops[i]);
                lemma_read_so_far(rest, i);
                lemma_other_event_reads(events, i);
            },
        }
    }
}

/// A finished read has seen everything, whatever the interleaving: there was a moment, since the
/// operation began, such that the operation has visited each block that was attached then, once,
/// newest first, and with all values that had got a place in the block by then.
pub proof fn law_read_sees_everything<T>(events: Seq<Event<T>>, i: int)
    requires
        is_run(events),
        0 <= i < run(events).ops.len(),
        run(events).ops[i].task == Task::Read,
        run(events).ops[i].pc is Done,
        !abandoned(events, i),
    ensures
        exists|m: int| #[trigger] saw_all_at(events, i, seen(events, i), m),
{
    lemma_read_so_far(events, i);
}

/// A push that is in the attached list has been there since it got its place.
proof fn lemma_was_here<T>(events: Seq<Event<T>>, moment: int, push: int)
    requires
        is_run(events),
        0 <= moment <= events.len(),
        places(events).here.contains(push),
        places(events.take(moment)).has(push),
    ensures
        places(events.take(moment)).here.contains(push),
    decreases events.len(),
{
    if moment == events.len() {
        assert(events.take(moment) =~= events);
    } else {
        let rest = events.drop_last();
        let before = places(rest);
        assert(rest.take(moment) =~= events.take(moment));
        lemma_places_stay(rest, moment);
        lemma_event_on_here(events, push);
        lemma_was_here(rest, moment, push);
    }
}

/// A value of the line of a list is in the line of one of its blocks.
proof fn lemma_line_source<T>(s: State<T>, list: Seq<usize>, value: T) -> (k: int)
    requires
        line(s, list).contains(value),
    ensures
        0 <= k < list.len(),
        line_of(s, list[k]).contains(value),
    decreases list.len(),
{
    let x = choose|x: int| 0 <= x < line(s, list).len() && line(s, list)[x] == value;
    let rest = list.drop_first();
    if x < line(s, rest).len() {
        assert(line(s, rest)[x] == value);
        let k = lemma_line_source(s, rest, value);
        assert(rest[k] == list[k + 1]);
        k + 1
    } else {
        assert(line_of(s, list[0])[x - line(s, rest).len()] == value);
        0
    }
}

/// A read gives back what has been pushed: a finished read has seen the value of every push that had
/// finished when the read began, unless a clear has taken it.
pub proof fn law_read_sees_finished_pushes<T>(
    events: Seq<Event<T>>,
    i: int,
    push: int,
    finished: int,
) -> (k: int)
    requires
        is_run(events),
        0 <= i < run(events).ops.len(),
        run(events).ops[i].task == Task::Read,
        run(events).ops[i].pc is Done,
        !abandoned(events, i),
        is_push(events, push),
        push < finished < started(events, i),
        events[finished] is Finish,
        started(events.take(finished), events[finished]->Finish_ticket) == push,
        places(events).here.contains(push),
    ensures
        0 <= k < seen(events, i).len(),
        seen(events, i)[k].contains(events[push]->value->0),
{
    let visits = seen(events, i);
    let value = events[push]->value->0;
    law_read_sees_everything(events, i);
    let m = choose|m: int| #[trigger] saw_all_at(events, i, visits, m);
    let before = events.take(m);
    let s = run(before);
    lemma_finished_has_place(events, push, finished, m);
    lemma_was_here(events, m, push);
    lemma_run_prefix(events, m);
    law_pushes_get_places(before);
    let here = places(before).here;
    let x = choose|x: int| 0 <= x < here.len() && here[x] == push;
    assert(values(before, here)[x] == value);
    assert(line(s, s.attached)[x] == value);
    assert(line(s, s.attached).contains(value));
    let k = lemma_line_source(s, s.attached, value);
    let y = choose|y: int|
        0 <= y < line_of(s, s.attached[k]).len() && line_of(s, s.attached[k])[y] == value;
    assert(visits[k][y] == value);
    k
}

/// A read sees nothing but what has been pushed.
pub proof fn law_read_sees_only_pushes<T>(events: Seq<Event<T>>, i: int, k: int, x: int)
    requires
        is_run(events),
        0 <= k < seen(events, i).len(),
        0 <= x < seen(events, i)[k].len(),
        0 <= i < run(events).ops.len(),
    ensures
        all_pushed_in(events).count(seen(events, i)[k][x]) > 0,
    decreases events.len(),
{
    let rest = events.drop_last();
    let s = run(events);
    let value = seen(events, i)[k][x];
    law_run_keeps_order(events);
    if events.last() matches Event::Step { ticket, .. } && ticket == i && s.ops[i].pc is Deliver && k
        == seen(rest, i).len() {
        let address = s.ops[i].pc.touches()->0;
        let block = s.block(address);
        assert(s.op_ok(s.ops[i]));
        lemma_touchable(s, s.ops[i].pc.entered()->0, address);
        assert(block.valid());
        lemma_quiesced(block);
        assert(block.slots[x] == Some(value));
        lemma_gather_covers(block.slots, in_slot(), x, value);
        lemma_gather_covers(s.heap, in_cell(), address as int, value);
        law_run_keeps_values(events);
        assert(s.total().count(value) > 0);
        assert(s.total().add(all_handed_out(events)).count(value) > 0);
    } else {
        law_run_keeps_order(rest);
        law_read_sees_only_pushes(rest, i, k, x);
    }
}

} // verus!
