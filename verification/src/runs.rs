//! Whole runs of a stripe: operations begin, take their steps in any order, and finish.
use crate::gate::COUNT_MASK;
use crate::laws::{
    law_abandon_keeps_values, law_begin_adds_value, law_finish_keeps_values,
    law_hand_over_removes_values, law_quiet, law_step_keeps_values,
};
use crate::model::{in_block, in_cell, in_op, in_slot, OpView, Pc, State, Task};
use crate::protocol::{lemma_empty, lemma_list_next, lemma_touchable};
use crate::steps::{
    law_step_keeps_order, lemma_abandon, lemma_begin, lemma_finish, lemma_hand_over,
};
use crate::sums::{gather, lemma_gather_nothing};
use vstd::multiset::Multiset;
use vstd::prelude::*;

verus! {

/// What can happen to a stripe.  `ticket` is the place of the operation that it happens to.
pub enum Event<T> {
    /// An operation begins.
    Begin { ticket: int, task: Task, value: Option<T> },
    /// An operation takes a step.  `fresh` is the address of a new block, where the step makes one.
    Step { ticket: int, fresh: usize },
    /// An operation that visits a block visits no more of them.
    Abandon { ticket: int },
    /// A clearing operation hands over the blocks that it has taken.
    HandOver { ticket: int },
    /// A finished operation gives its ticket back.
    Finish { ticket: int },
}

impl<T> Event<T> {
    /// Whether the event can happen to a stripe.
    pub open spec fn can_happen(self, s: State<T>) -> bool {
        match self {
            Event::Begin { ticket, task, value } => {
                &&& 0 <= ticket <= s.ops.len()
                &&& ticket < s.ops.len() ==> s.ops[ticket] == OpView::<T>::idle()
                &&& ticket == s.ops.len() ==> ticket < COUNT_MASK
                &&& value is Some <==> task == Task::Push
            },
            Event::Step { ticket, fresh } => 0 <= ticket < s.ops.len() && s.vacant(fresh),
            Event::Abandon { ticket } => 0 <= ticket < s.ops.len() && s.ops[ticket].pc is Deliver,
            Event::HandOver { ticket } => 0 <= ticket < s.ops.len()
                && s.ops[ticket].pc is HandOver,
            Event::Finish { ticket } => 0 <= ticket < s.ops.len() && s.ops[ticket].pc is Done,
        }
    }

    /// The stripe after the event.
    pub open spec fn happen(self, s: State<T>) -> State<T> {
        match self {
            Event::Begin { ticket, task, value } => s.begin(ticket, task, value),
            Event::Step { ticket, fresh } => s.next(ticket, fresh),
            Event::Abandon { ticket } => s.abandon(ticket),
            Event::HandOver { ticket } => s.hand_over(ticket),
            Event::Finish { ticket } => s.finish(ticket),
        }
    }

    /// The value that the event hands to the stripe.
    pub open spec fn pushed(self) -> Multiset<T> {
        match self {
            Event::Begin { value, .. } => in_slot()(value),
            _ => Multiset::empty(),
        }
    }

    /// The values that the event hands out.
    pub open spec fn handed_out(self, s: State<T>) -> Multiset<T> {
        match self {
            Event::HandOver { ticket } => gather(s.ops[ticket].taken, in_block()),
            _ => Multiset::empty(),
        }
    }
}

/// The stripe after events have happened to an empty one, one after the other.
pub open spec fn run<T>(events: Seq<Event<T>>) -> State<T>
    decreases events.len(),
{
    if events.len() == 0 {
        State::empty()
    } else {
        events.last().happen(run(events.drop_last()))
    }
}

/// Whether events can happen to an empty stripe, one after the other.
pub open spec fn is_run<T>(events: Seq<Event<T>>) -> bool
    decreases events.len(),
{
    events.len() == 0 || is_run(events.drop_last()) && events.last().can_happen(
        run(events.drop_last()),
    )
}

/// All values that have been handed to the stripe.
pub open spec fn all_pushed_in<T>(events: Seq<Event<T>>) -> Multiset<T>
    decreases events.len(),
{
    if events.len() == 0 {
        Multiset::empty()
    } else {
        all_pushed_in(events.drop_last()).add(events.last().pushed())
    }
}

/// All values that clearing operations have handed out.
pub open spec fn all_handed_out<T>(events: Seq<Event<T>>) -> Multiset<T>
    decreases events.len(),
{
    if events.len() == 0 {
        Multiset::empty()
    } else {
        all_handed_out(events.drop_last()).add(
            events.last().handed_out(run(events.drop_last())),
        )
    }
}

/// A run up to any moment is a run.
pub proof fn lemma_run_prefix<T>(events: Seq<Event<T>>, moment: int)
    requires
        is_run(events),
        0 <= moment <= events.len(),
    ensures
        is_run(events.take(moment)),
    decreases events.len(),
{
    if moment < events.len() {
        lemma_run_prefix(events.drop_last(), moment);
        assert(events.drop_last().take(moment) =~= events.take(moment));
    } else {
        assert(events.take(moment) =~= events);
    }
}

/// A step adds at most one address, which is the next one.
proof fn lemma_heap_grows<T>(s: State<T>, i: int, fresh: usize)
    requires
        s.inv(),
        0 <= i < s.ops.len(),
        s.vacant(fresh),
    ensures
        s.next(i, fresh).heap.len() == s.heap.len() || s.next(i, fresh).heap.len() == fresh + 1,
{
    let op = s.ops[i];
    assert(s.op_ok(op));
    if let Some(address) = op.pc.touches() {
        lemma_touchable(s, op.pc.entered()->0, address);
    }
    if let Pc::Collect { head: Some(address) } = op.pc {
        assert(s.detached.contains(address));
        lemma_list_next(s, s.detached, address);
    }
}

/// A stripe stays in order, whatever happens to it.
pub proof fn law_run_keeps_order<T>(events: Seq<Event<T>>)
    requires
        is_run(events),
    ensures
        run(events).inv(),
        run(events).heap.len() <= usize::MAX + 1,
    decreases events.len(),
{
    if events.len() == 0 {
        lemma_empty::<T>();
    } else {
        let s = run(events.drop_last());
        law_run_keeps_order(events.drop_last());
        match events.last() {
            Event::Begin { ticket, task, value } => lemma_begin(s, ticket, task, value),
            Event::Step { ticket, fresh } => {
                law_step_keeps_order(s, ticket, fresh);
                lemma_heap_grows(s, ticket, fresh);
            },
            Event::Abandon { ticket } => lemma_abandon(s, ticket),
            Event::HandOver { ticket } => lemma_hand_over(s, ticket),
            Event::Finish { ticket } => lemma_finish(s, ticket),
        }
    }
}

/// Nothing is lost and nothing is duplicated in a whole run, whatever the interleaving: at every
/// moment, each value that was handed to the stripe has either been handed out, exactly once, or is
/// still held.
pub proof fn law_run_keeps_values<T>(events: Seq<Event<T>>)
    requires
        is_run(events),
    ensures
        run(events).total().add(all_handed_out(events)) == all_pushed_in(events),
    decreases events.len(),
{
    let none = Multiset::<T>::empty();
    if events.len() == 0 {
        lemma_gather_nothing(State::<T>::empty().ops, in_op());
        lemma_gather_nothing(State::<T>::empty().heap, in_cell());
        assert(run(events).total().add(none) =~= none);
    } else {
        let rest = events.drop_last();
        let event = events.last();
        let s = run(rest);
        let t = run(events);
        law_run_keeps_order(rest);
        law_run_keeps_values(rest);
        match event {
            Event::Begin { ticket, task, value } => {
                law_begin_adds_value(s, ticket, task, value);
            },
            Event::Step { ticket, fresh } => law_step_keeps_values(s, ticket, fresh),
            Event::Abandon { ticket } => law_abandon_keeps_values(s, ticket),
            Event::HandOver { ticket } => law_hand_over_removes_values(s, ticket),
            Event::Finish { ticket } => law_finish_keeps_values(s, ticket),
        }
        let pushed = event.pushed();
        let out = event.handed_out(s);
        assert(t.total().add(out) =~= s.total().add(pushed));
        assert(t.total().add(all_handed_out(rest).add(out)) =~= t.total().add(out).add(
            all_handed_out(rest),
        ));
        assert(s.total().add(pushed).add(all_handed_out(rest)) =~= s.total().add(
            all_handed_out(rest),
        ).add(pushed));
    }
}

/// Once all operations have finished, each value that was handed to the stripe has either been
/// handed out, exactly once, or is there to be read.
pub proof fn law_quiet_run_keeps_values<T>(events: Seq<Event<T>>)
    requires
        is_run(events),
        run(events).quiet(),
    ensures
        run(events).contents().flatten().to_multiset().add(all_handed_out(events))
            == all_pushed_in(events),
{
    law_run_keeps_order(events);
    law_run_keeps_values(events);
    law_quiet(run(events));
}

/// Whether an operation is about to ask the newest block for a slot.
pub open spec fn asks_newest<T>(s: State<T>, i: int) -> bool {
    &&& 0 <= i < s.ops.len()
    &&& s.ops[i].pc matches Pc::Claim { block, .. } && s.tail == Some(block)
}

/// Whether a newest block that nobody has asked for a slot yet is about to be asked for one.
pub open spec fn newest_is_wanted<T>(s: State<T>) -> bool {
    s.tail matches Some(tail) && s.block(tail).write == 0 ==> exists|i: int| #[trigger]
        asks_newest(s, i)
}

proof fn lemma_step_wants_newest<T>(s: State<T>, i: int, fresh: usize)
    requires
        s.inv(),
        0 <= i < s.ops.len(),
        s.vacant(fresh),
        newest_is_wanted(s),
    ensures
        newest_is_wanted(s.next(i, fresh)),
{
    let t = s.next(i, fresh);
    let op = s.ops[i];
    assert(s.op_ok(op));
    if let Some(address) = op.pc.touches() {
        lemma_touchable(s, op.pc.entered()->0, address);
    }
    if let Some(tail) = s.tail {
        assert(s.attached[0] == tail);
        assert(s.attached.contains(tail));
        lemma_list_next(s, s.attached, tail);
    }
    if let Pc::Collect { head: Some(address) } = op.pc {
        assert(s.detached.contains(address));
        lemma_list_next(s, s.detached, address);
    }
    if t.tail is Some && t.block(t.tail->0).write == 0 {
        if t.tail == s.tail {
            assert(s.block(s.tail->0).write == 0);
            let j = choose|j: int| #[trigger] asks_newest(s, j);
            assert(j != i);
            assert(t.ops[j] == s.ops[j]);
            assert(asks_newest(t, j));
        } else {
            assert(asks_newest(t, i));
        }
    }
}

/// A block is attached only by an operation that goes on to ask it for a slot, so that the newest
/// block does not stay unused.
pub proof fn law_run_wants_newest<T>(events: Seq<Event<T>>)
    requires
        is_run(events),
    ensures
        newest_is_wanted(run(events)),
    decreases events.len(),
{
    if events.len() > 0 {
        let s = run(events.drop_last());
        let t = run(events);
        law_run_keeps_order(events.drop_last());
        law_run_wants_newest(events.drop_last());
        if let Event::Step { ticket, fresh } = events.last() {
            lemma_step_wants_newest(s, ticket, fresh);
        } else if s.tail is Some && s.block(s.tail->0).write == 0 {
            let j = choose|j: int| #[trigger] asks_newest(s, j);
            assert(t.ops[j] == s.ops[j]);
            assert(asks_newest(t, j));
        }
    }
}

} // verus!
