//! How operations get on while others do.
//!
//! A push is not held up by others except where one of them gets something done, and a read is not
//! held up by others except by the writes that are in flight in the block that it is at.
use crate::alone::{clear_left, push_left};
use crate::block::{
    lemma_leading_run, lemma_leading_run_grows, lemma_quiesced, BlockView, BLOCK_SIZE,
};
use crate::gate::COUNT_MASK;
use crate::laws::{
    law_blocks_only_grow, law_held_blocks_stay, law_one_clearer, law_read_visits_the_list, must_wait,
    reading,
};
use crate::lines::{claims, lemma_write_stays};
use crate::model::{OpView, Pc, State, Task};
use crate::protocol::{in_phase, lemma_touchable, lockers};
use crate::steps::law_step_keeps_order;
use crate::stripe::{progress, Progress, Stripe};
use crate::sums::{lemma_tally_witness, tally};
use vstd::prelude::*;

verus! {

/// Whether the next step of an operation gets something done for all to see: it claims a slot for
/// its value, or attaches a block, or detaches the list, or flips the phase.
pub open spec fn gets_done<T>(s: State<T>, j: int) -> bool {
    match s.ops[j].pc {
        Pc::Claim { .. } => claims(s, j),
        Pc::Install { .. } => s.tail is None,
        Pc::Extend { block, .. } => s.tail == Some(block),
        Pc::Swap => s.tail is Some,
        Pc::Flip { .. } => true,
        _ => false,
    }
}

/// A step changes no other operation, and only flipping changes the phase.
#[verifier::spinoff_prover]
proof fn lemma_leaves_others<T>(s: State<T>, i: int, j: int, fresh: usize)
    requires
        0 <= i < s.ops.len(),
        0 <= j < s.ops.len(),
        i != j,
    ensures
        s.next(j, fresh).ops[i] == s.ops[i],
        !(s.ops[j].pc is Flip) ==> s.next(j, fresh).phase == s.phase,
{
}

/// A step that gets nothing done leaves the tail and the phase as they are.
#[verifier::spinoff_prover]
proof fn lemma_keeps_tail<T>(s: State<T>, j: int, fresh: usize)
    requires
        0 <= j < s.ops.len(),
        !gets_done(s, j),
    ensures
        s.next(j, fresh).tail == s.tail,
        s.next(j, fresh).phase == s.phase,
{
}

/// Pushing is lock-free: the steps that a push has left, were it left alone, become more by the step
/// of another operation only if that step gets something done.  So a push that takes steps and does
/// not come to its end leaves others claiming slots, attaching blocks or clearing all the while.
#[verifier::spinoff_prover]
pub proof fn law_push_is_lock_free<T>(s: State<T>, i: int, j: int, fresh: usize)
    requires
        s.inv(),
        0 <= i < s.ops.len(),
        0 <= j < s.ops.len(),
        i != j,
        s.vacant(fresh),
        s.ops[i].task == Task::Push,
        !gets_done(s, j),
    ensures
        push_left(s.next(j, fresh), i) == push_left(s, i),
{
    let op = s.ops[i];
    lemma_leaves_others(s, i, j, fresh);
    lemma_keeps_tail(s, j, fresh);
    if let Pc::Claim { block, .. } = op.pc {
        law_held_blocks_stay(s, j, i, fresh);
        lemma_write_stays(s, j, fresh, block);
    }
}

/// The steps that an operation that enters the stripe and does not look at the data of blocks has
/// left, were it left alone: all of finding out whether there are values, and the beginning of
/// reading and pushing.
pub open spec fn enter_left<T>(s: State<T>, i: int) -> int {
    match s.ops[i].pc {
        Pc::Arrive { phase } => if phase == s.phase {
            6
        } else {
            9
        },
        Pc::Undo { .. } => 8,
        Pc::Guess => 7,
        Pc::LoadTail { .. } => 5,
        Pc::ProbeTail { .. } => 4,
        Pc::ProbeLink { .. } => 3,
        Pc::ProbeNext { .. } => 2,
        Pc::Exit { .. } => 1,
        _ => 0,
    }
}

/// An operation that enters the stripe gets closer to its end with every step.
#[verifier::spinoff_prover]
proof fn lemma_enters<T>(s: State<T>, i: int, fresh: usize)
    requires
        s.inv(),
        0 <= i < s.ops.len(),
        enter_left(s, i) > 0,
    ensures
        s.ops[i].task == Task::IsEmpty || enter_left(s, i) > 5 ==> enter_left(s.next(i, fresh), i)
            < enter_left(s, i),
        s.ops[i].pc is Exit ==> s.next(i, fresh).ops[i].pc is Done,
{
    assert(s.op_ok(s.ops[i]));
    assert(s.phase < 2);
}

/// Entering a stripe, and finding out whether it has values, never waits: every step brings the
/// operation closer to its end, and the step of another operation puts it back only if that step
/// flips the phase.
pub proof fn law_entering_never_waits<T>(s: State<T>, i: int, j: int, fresh: usize)
    requires
        s.inv(),
        0 <= i < s.ops.len(),
        0 <= j < s.ops.len(),
        s.vacant(fresh),
        enter_left(s, i) > 0,
    ensures
        j == i && (s.ops[i].task == Task::IsEmpty || enter_left(s, i) > 5) ==> enter_left(
            s.next(j, fresh),
            i,
        ) < enter_left(s, i),
        j != i && !(s.ops[j].pc is Flip) ==> enter_left(s.next(j, fresh), i) == enter_left(s, i),
        j == i && s.ops[i].pc is Exit ==> s.next(j, fresh).ops[i].pc is Done,
{
    if i == j {
        lemma_enters(s, i, fresh);
    } else {
        lemma_leaves_others(s, i, j, fresh);
    }
}

/// How much can still happen to a block: the slots that have not been claimed, and those outside the
/// leading run.
pub open spec fn slack<T>(block: BlockView<T>) -> int {
    (BLOCK_SIZE - block.claimed()) + (BLOCK_SIZE - block.len())
}

/// What is left of a read at the block that it is at, in steps, and in what can still happen to the
/// block.
pub open spec fn visit_left<T>(s: State<T>, i: int) -> int {
    match s.ops[i].pc {
        Pc::Measure { block, .. } => 4 * slack(s.block(block)) + 4,
        Pc::Compare { block, len, .. } => 4 * slack(s.block(block)) + if s.block(block).claimed()
            == len {
            3int
        } else {
            5
        },
        Pc::Deliver { .. } => 2,
        Pc::Advance { .. } => 1,
        _ => 0,
    }
}

/// More than what can be left of a read at one block.
pub open spec fn visit_bound() -> int {
    8 * BLOCK_SIZE + 6
}

/// What is left of a read that has found a list of blocks and is at the one with number `k`.
pub open spec fn read_left<T>(s: State<T>, i: int, list: Seq<usize>, k: int) -> int {
    (list.len() - 1 - k) * visit_bound() + visit_left(s, i)
}

/// Blocks get no more slack, and one that gets another claim gets less.
proof fn lemma_slack<T>(before: BlockView<T>, after: BlockView<T>)
    requires
        before.valid(),
        after.valid(),
        before.grows_to(after),
    ensures
        0 <= slack(after) <= slack(before) <= 2 * BLOCK_SIZE,
        before.claimed() != after.claimed() ==> slack(after) < slack(before),
{
    lemma_quiesced(before);
    lemma_quiesced(after);
    lemma_leading_run(before.ready);
    lemma_leading_run(after.ready);
    lemma_leading_run_grows(before.ready, after.ready);
}

/// What is left of a read at a block is bounded.
proof fn lemma_visit_left<T>(s: State<T>, i: int, list: Seq<usize>, k: int)
    requires
        reading(s, i, list, k),
    ensures
        0 < visit_left(s, i) < visit_bound(),
        s.has(list[k]),
        s.block(list[k]).valid(),
{
    let op = s.ops[i];
    assert(s.op_ok(op));
    assert(s.within_reach(op.pc.entered()->0, list, k));
    lemma_touchable(s, op.pc.entered()->0, list[k]);
    assert(s.block(list[k]).valid());
    lemma_slack(s.block(list[k]), s.block(list[k]));
}

/// Reading comes to an end while others keep pushing: what is left of a read that has found a list
/// of blocks is bounded by that list, does not become more by the steps of other operations, and
/// becomes less with every step of its own that need not wait for a write in flight in the block
/// that it is at.  A step that has to wait costs at most one, and the block allows for boundedly
/// many writes.
#[verifier::spinoff_prover]
pub proof fn law_read_comes_to_an_end<T>(
    s: State<T>,
    i: int,
    list: Seq<usize>,
    k: int,
    j: int,
    fresh: usize,
)
    requires
        reading(s, i, list, k),
        0 <= j < s.ops.len(),
        s.vacant(fresh),
    ensures
        0 < read_left(s, i, list, k) < list.len() * visit_bound(),
        j != i ==> read_left(s.next(j, fresh), i, list, k) <= read_left(s, i, list, k),
        j == i && !(s.ops[i].pc is Advance) && !must_wait(s, i) ==> read_left(
            s.next(j, fresh),
            i,
            list,
            k,
        ) < read_left(s, i, list, k),
        j == i && must_wait(s, i) ==> read_left(s.next(j, fresh), i, list, k) <= read_left(
            s,
            i,
            list,
            k,
        ) + 1,
        j == i && s.ops[i].pc is Compare ==> read_left(s.next(j, fresh), i, list, k) < read_left(
            s,
            i,
            list,
            k,
        ),
        j == i && s.ops[i].pc is Advance && k + 1 < list.len() ==> read_left(
            s.next(j, fresh),
            i,
            list,
            k + 1,
        ) < read_left(s, i, list, k),
        j == i && s.ops[i].pc is Advance && k + 1 == list.len() ==> s.next(j, fresh).ops[i].pc is Exit,
{
    let t = s.next(j, fresh);
    let op = s.ops[i];
    let address = list[k];
    law_step_keeps_order(s, j, fresh);
    law_read_visits_the_list(s, i, list, k, j, fresh);
    lemma_visit_left(s, i, list, k);
    let n = list.len() - 1 - k;
    assert(n * visit_bound() >= 0 && (n + 1) * visit_bound() == n * visit_bound() + visit_bound())
        by (nonlinear_arith)
        requires
            n >= 0,
            visit_bound() >= 0,
    ;
    assert((n + 1) * visit_bound() <= list.len() * visit_bound()) by (nonlinear_arith)
        requires
            n + 1 <= list.len(),
            visit_bound() >= 0,
    ;
    assert(s.op_ok(op));
    if j != i {
        lemma_visit_left(t, i, list, k);
        law_blocks_only_grow(s, j, fresh, address);
        lemma_slack(s.block(address), t.block(address));
    } else {
        lemma_quiesced(s.block(address));
        assert(t.heap == s.heap);
        if op.pc is Advance && k + 1 < list.len() {
            lemma_visit_left(t, i, list, k + 1);
            assert(n * visit_bound() == (n - 1) * visit_bound() + visit_bound())
                by (nonlinear_arith);
        }
    }
}

/// What is said of a step is right: an operation is said to be finished exactly when it is, to be at
/// a block that can be looked at exactly when it is, and to have blocks to hand over exactly when it
/// has.
pub proof fn law_progress_is_right<T>(s: State<T>, i: int, fresh: usize)
    requires
        s.inv(),
        0 <= i < s.ops.len(),
    ensures
        ({
            let t = s.next(i, fresh);
            let pc = t.ops[i].pc;
            &&& progress(s, t, i) == Progress::Finished <==> pc is Done || pc is Idle
            &&& progress(s, t, i) == Progress::Visiting <==> pc is Deliver
            &&& progress(s, t, i) == Progress::HandingOver <==> pc is HandOver
        }),
{
}

/// An operation that is said to be running has got on.
#[verifier::spinoff_prover]
#[verifier::rlimit(40)]
pub proof fn law_running_gets_on<T>(s: State<T>, i: int, fresh: usize)
    requires
        s.inv(),
        0 <= i < s.ops.len(),
        progress(s, s.next(i, fresh), i) == Progress::Running,
    ensures
        s.next(i, fresh).ops[i] != s.ops[i],
{
    let op = s.ops[i];
    assert(s.op_ok(op));
    if op.pc is Collect {
        assert(op.taken.push(s.block(s.detached[0])).len() != op.taken.len());
        assert(s.next(i, fresh).ops[i].taken != op.taken || s.next(i, fresh).ops[i].pc is HandOver);
    }
}

/// Pushing, and asking whether there are values, is never said to wait.
pub proof fn law_only_reads_and_clears_wait<T>(s: State<T>, i: int, fresh: usize)
    requires
        s.inv(),
        0 <= i < s.ops.len(),
        progress(s, s.next(i, fresh), i) == Progress::Waiting,
    ensures
        s.ops[i].task == Task::Read || s.ops[i].task == Task::Clear,
{
    assert(s.op_ok(s.ops[i]));
}

/// A clearing operation is said to wait only while another operation is in flight.
#[verifier::spinoff_prover]
#[verifier::rlimit(40)]
pub proof fn law_clear_waits_for_others<T>(s: State<T>, i: int, fresh: usize) -> (j: int)
    requires
        s.inv(),
        0 <= i < s.ops.len(),
        s.ops[i].task == Task::Clear,
        progress(s, s.next(i, fresh), i) == Progress::Waiting,
    ensures
        0 <= j < s.ops.len(),
        j != i,
        !(s.ops[j].pc is Idle),
        !(s.ops[j].pc is Done),
{
    assert(s.op_ok(s.ops[i]));
    match s.ops[i].pc {
        Pc::Drain { previous, .. } => lemma_tally_witness(s.ops, in_phase(previous as nat)),
        _ => lemma_tally_witness(s.ops, lockers()),
    }
}

/// An operation that is said to wait has not got on, or has found that a block is still being written
/// to and looks again.
#[verifier::spinoff_prover]
#[verifier::rlimit(40)]
pub proof fn law_waiting_is_right<T>(s: State<T>, i: int, fresh: usize)
    requires
        s.inv(),
        0 <= i < s.ops.len(),
        progress(s, s.next(i, fresh), i) == Progress::Waiting,
    ensures
        s.next(i, fresh) == s || (s.ops[i].pc matches Pc::Compare { block, len, .. } && len < s.block(
            block,
        ).claimed() && s.next(i, fresh).ops[i].pc is Measure),
{
    let op = s.ops[i];
    assert(s.op_ok(op));
    if let Pc::Compare { block, .. } = op.pc {
        lemma_touchable(s, op.pc.entered()->0, block);
        assert(s.block(block).valid());
        lemma_quiesced(s.block(block));
    }
}

/// Whatever an operation has to wait for is an operation that is in its way: a clear waits for the
/// clear that holds the lock, or for an operation that is counted in the phase before the flip, and
/// a read waits for a push that has claimed a slot of the block that the read is at.
#[verifier::spinoff_prover]
#[verifier::rlimit(40)]
pub proof fn law_waits_are_justified<T>(s: State<T>, i: int) -> (j: int)
    requires
        s.inv(),
        0 <= i < s.ops.len(),
        must_wait(s, i),
    ensures
        0 <= j < s.ops.len(),
        j != i,
        match s.ops[i].pc {
            Pc::Lock => s.ops[j].pc.locks(),
            Pc::Drain { previous, .. } => s.ops[j].pc.unit() == Some(previous) && previous == 1
                - s.phase,
            pc => s.ops[i].task == Task::Read && s.ops[j].task == Task::Push && (
            s.ops[j].pc.pending() matches Some(slot) && pc.touches() == Some(slot.0)),
        },
{
    let op = s.ops[i];
    assert(s.op_ok(op));
    match op.pc {
        Pc::Lock => lemma_tally_witness(s.ops, lockers()),
        Pc::Drain { previous, .. } => {
            let j = lemma_tally_witness(s.ops, in_phase(previous as nat));
            assert(s.ops[j].pc.unit() matches Some(p) && p == previous);
            j
        },
        _ => {
            let address = op.pc.touches()->0;
            lemma_touchable(s, op.pc.entered()->0, address);
            let index = choose|index: int|
                0 <= index < s.block(address).claimed() && !#[trigger] s.block(address).ready[index];
            assert(s.held(address, index));
            let j = choose|j: int|
                0 <= j < s.ops.len() && #[trigger] s.ops[j].pc.pending() == Some(
                    (address, index as usize),
                );
            assert(s.op_ok(s.ops[j]));
            j
        },
    }
}

/// Clearing comes to an end: every step of a clearing operation that need not wait brings it closer
/// to handing the list over, and then to its end, and other operations do not put it back once it
/// has detached the list.
#[verifier::spinoff_prover]
#[verifier::rlimit(40)]
pub proof fn law_clear_comes_to_an_end<T>(s: State<T>, i: int, j: int, fresh: usize)
    requires
        s.inv(),
        0 <= i < s.ops.len(),
        0 <= j < s.ops.len(),
        s.vacant(fresh),
        s.ops[i].task == Task::Clear,
        !(s.ops[i].pc is Idle),
        !(s.ops[i].pc is Done),
    ensures
        clear_left(s, i) > 0,
        j == i && !must_wait(s, i) && !(s.ops[i].pc is HandOver) ==> clear_left(
            s.next(j, fresh),
            i,
        ) < clear_left(s, i),
        j == i && !must_wait(s, i) && clear_left(s.next(j, fresh), i) == 0 ==> s.next(
            j,
            fresh,
        ).ops[i].pc is Done,
        j != i && !(s.ops[i].pc is Lock) && !(s.ops[i].pc is Swap) ==> clear_left(
            s.next(j, fresh),
            i,
        ) == clear_left(s, i),
        clear_left(s.hand_over(i), i) < 2,
{
    assert(s.op_ok(s.ops[i]));
    if i != j {
        lemma_leaves_others(s, i, j, fresh);
        if !(s.ops[i].pc is Lock) {
            lemma_detached_stays(s, i, j, fresh);
        }
    }
}

/// Only the clearing operation that holds the lock changes the detached list.
#[verifier::spinoff_prover]
proof fn lemma_detached_stays<T>(s: State<T>, i: int, j: int, fresh: usize)
    requires
        s.inv(),
        0 <= i < s.ops.len(),
        0 <= j < s.ops.len(),
        i != j,
        s.ops[i].pc.locks(),
    ensures
        s.next(j, fresh).detached == s.detached,
{
    if s.ops[j].pc.locks() {
        law_one_clearer(s, i, j);
    }
}

/// One operation for each ticket that is in use.
pub open spec fn in_use<T>() -> spec_fn(OpView<T>) -> nat {
    |op: OpView<T>|
        if op == OpView::<T>::idle() {
            0
        } else {
            1
        }
}

/// There is a ticket for one more operation as long as fewer are in use than a count can hold.
pub proof fn law_tickets_are_given_out_again<T>(stripe: Stripe<T>)
    requires
        tally(stripe@.ops, in_use()) < COUNT_MASK,
    ensures
        stripe.has_ticket(),
{
    if !stripe.has_ticket() {
        lemma_all_in_use(stripe@.ops);
    }
}

proof fn lemma_all_in_use<T>(ops: Seq<OpView<T>>)
    requires
        forall|i: int| 0 <= i < ops.len() ==> #[trigger] ops[i] != OpView::<T>::idle(),
    ensures
        tally(ops, in_use()) == ops.len(),
    decreases ops.len(),
{
    if ops.len() > 0 {
        assert(ops[ops.len() - 1] != OpView::<T>::idle());
        assert forall|i: int| 0 <= i < ops.drop_last().len() implies #[trigger] ops.drop_last()[i]
            != OpView::<T>::idle() by {
            assert(ops[i] != OpView::<T>::idle());
        }
        lemma_all_in_use(ops.drop_last());
    }
}

} // verus!
