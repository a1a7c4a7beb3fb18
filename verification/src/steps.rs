//! Every step of an operation keeps the invariant of a stripe.
use crate::block::{lemma_leading_run_grows, lemma_quiesced, BLOCK_SIZE};
use crate::gate::{lemma_word_size, COUNT_MASK};
use crate::model::{OpView, Pc, State, Task};
use crate::protocol::{
    claimants, in_phase, lemma_list_next, lemma_touchable, lockers, refusals,
};
use crate::sums::{
    lemma_tally_bound, lemma_tally_bound_two, lemma_tally_covers, lemma_tally_covers_two,
    lemma_tally_push, lemma_tally_update, tally,
};
use vstd::prelude::*;

verus! {

/// Whether replacing an operation by another one leaves the bounds on the write indices alone.
spec fn weighs_no_less<T>(s: State<T>, old_op: OpView<T>, new_op: OpView<T>) -> bool {
    &&& s.tail matches Some(tail) ==> refusals(tail)(old_op) <= refusals(tail)(new_op)
    &&& forall|address: usize| #[trigger]
        s.has(address) && s.tail != Some(address) ==> claimants(address)(new_op) <= claimants(
            address,
        )(old_op)
}

proof fn lemma_keep_bounds<T>(s: State<T>, t: State<T>, i: int)
    requires
        s.bounds_ok(),
        0 <= i < s.ops.len(),
        t.ops == s.ops.update(i, t.ops[i]),
        t.tail == s.tail,
        t.tail matches Some(tail) ==> t.block(tail) == s.block(tail),
        forall|address: usize| #[trigger]
            t.has(address) ==> s.has(address) && t.block(address) == s.block(address),
        weighs_no_less(s, s.ops[i], t.ops[i]),
    ensures
        t.bounds_ok(),
{
    if let Some(tail) = s.tail {
        lemma_tally_update(s.ops, refusals(tail), i, t.ops[i]);
    }
    assert forall|address: usize| #[trigger] t.has(address) && t.tail != Some(address) implies t.block(
        address,
    ).write + tally(t.ops, claimants(address)) <= BLOCK_SIZE + 2 * t.ops.len() by {
        assert(s.has(address));
        lemma_tally_update(s.ops, claimants(address), i, t.ops[i]);
    }
}

proof fn lemma_keep_counts<T>(s: State<T>, i: int, op: OpView<T>)
    requires
        s.counts_ok(),
        0 <= i < s.ops.len(),
        op.pc.unit() == s.ops[i].pc.unit(),
        op.pc.locks() == s.ops[i].pc.locks(),
    ensures
        s.with_op(i, op).counts_ok(),
{
    lemma_tally_update(s.ops, in_phase(0), i, op);
    lemma_tally_update(s.ops, in_phase(1), i, op);
    lemma_tally_update(s.ops, lockers(), i, op);
}

/// An operation can go on to any point that is in order, as long as it neither makes a block nor
/// claims a slot.
proof fn lemma_keep<T>(s: State<T>, i: int, op: OpView<T>)
    requires
        s.inv(),
        0 <= i < s.ops.len(),
        s.op_ok(op),
        op.pc.unit() == s.ops[i].pc.unit(),
        op.pc.locks() == s.ops[i].pc.locks(),
        op.pc.owns() is None,
        op.pc.pending() is None,
        s.ops[i].pc.owns() is None,
        s.ops[i].pc.pending() is None,
        weighs_no_less(s, s.ops[i], op),
    ensures
        s.with_op(i, op).inv(),
{
    let t = s.with_op(i, op);
    lemma_keep_counts(s, i, op);
    lemma_keep_bounds(s, t, i);
    lemma_same_memory(s, t);
    lemma_keep_ops(s, t, i);
    lemma_keep_blocks(s, t, i);
}

/// What the invariant says of the memory does not depend on the operations.
proof fn lemma_same_memory<T>(s: State<T>, t: State<T>)
    requires
        s.lists_ok(),
        s.heap == t.heap,
        s.tail == t.tail,
        s.phase == t.phase,
        s.attached == t.attached,
        s.detached == t.detached,
        s.stage == t.stage,
    ensures
        t.lists_ok(),
        forall|op: OpView<T>| #[trigger] t.op_ok(op) == s.op_ok(op),
        forall|address: usize| #[trigger] t.has(address) == s.has(address),
        forall|address: usize| #[trigger] t.block(address) == s.block(address),
{
    assert forall|k: int| 0 <= k < t.attached.len() implies #[trigger] t.linked(
        t.attached,
        k,
    ) by {
        assert(s.linked(s.attached, k));
    }
    assert forall|k: int| 0 <= k < t.detached.len() implies #[trigger] t.linked(
        t.detached,
        k,
    ) by {
        assert(s.linked(s.detached, k));
    }
}

/// The block that came before a block that an operation may have hold of has no slots left.
proof fn lemma_next_is_full<T>(s: State<T>, phase: usize, address: usize)
    requires
        s.lists_ok(),
        s.touchable(phase, address),
    ensures
        s.block(address).next matches Some(next) ==> s.block(next).write >= BLOCK_SIZE,
{
    let list = if s.attached.contains(address) {
        s.attached
    } else {
        s.detached
    };
    let k = choose|k: int| 0 <= k < list.len() && list[k] == address;
    assert(s.linked(list, k));
    if k + 1 < list.len() {
        assert(s.linked(list, k + 1));
    }
}

/// Steps that only look at the memory.
proof fn lemma_look<T>(s: State<T>, i: int, fresh: usize)
    requires
        s.inv(),
        0 <= i < s.ops.len(),
        match s.ops[i].pc {
            Pc::Guess => true,
            Pc::LoadTail { .. } => true,
            Pc::ProbeTail { .. } => true,
            Pc::ProbeLink { .. } => true,
            Pc::ProbeNext { .. } => true,
            Pc::Measure { .. } => true,
            Pc::Compare { .. } => true,
            Pc::Deliver { .. } => true,
            Pc::Advance { .. } => true,
            _ => false,
        },
    ensures
        s.next(i, fresh).inv(),
{
    let op = s.ops[i];
    let t = s.next(i, fresh);
    let pc = t.ops[i].pc;
    assert(s.op_ok(op));
    if let Some(address) = op.pc.touches() {
        lemma_touchable(s, op.pc.entered()->0, address);
        assert(s.block(address).valid());
        lemma_quiesced(s.block(address));
        if op.pc is ProbeLink {
            lemma_next_is_full(s, op.pc.entered()->0, address);
        }
    }
    if op.pc is LoadTail && s.tail is Some {
        assert(s.attached[0] == s.tail->0);
        assert(s.attached.contains(s.tail->0));
    }
    assert(s.op_ok(op.at(pc)));
    assert(weighs_no_less(s, op, op.at(pc)));
    lemma_keep(s, i, op.at(pc));
    assert(t == s.with_op(i, op.at(pc)));
}

/// An operation that neither makes a block nor claims a slot has no part in what holds of the
/// blocks.
proof fn lemma_keep_blocks<T>(s: State<T>, t: State<T>, i: int)
    requires
        s.blocks_ok(),
        0 <= i < s.ops.len(),
        t.ops == s.ops.update(i, t.ops[i]),
        t.ops[i].pc.owns() is None,
        t.ops[i].pc.pending() is None,
        s.ops[i].pc.owns() is None,
        s.ops[i].pc.pending() is None,
        t.heap == s.heap,
        forall|address: usize|
            s.attached.contains(address) || s.detached.contains(address)
                ==> #[trigger] t.attached.contains(address) || t.detached.contains(address),
    ensures
        t.blocks_ok(),
{
    assert forall|address: usize| #[trigger] t.has(address) implies {
        ||| t.attached.contains(address)
        ||| t.detached.contains(address)
        ||| t.owned(address)
    } by {
        assert(s.has(address));
        if s.owned(address) {
            let j = choose|j: int|
                0 <= j < s.ops.len() && (#[trigger] s.ops[j].pc.owns() matches Some(own) && own.0
                    == address);
            assert(t.ops[j] == s.ops[j]);
            assert(t.ops[j].pc.owns() is Some);
        } else {
            assert(s.attached.contains(address) || s.detached.contains(address));
        }
    }
    assert forall|address: usize| #[trigger] t.has(address) implies t.block(address).valid() by {
        assert(s.has(address));
    }
    assert forall|address: usize, index: int|
        t.has(address) && 0 <= index < t.block(address).claimed() && !#[trigger] t.block(
            address,
        ).ready[index] implies t.held(address, index) by {
        assert(s.has(address));
        assert(!s.block(address).ready[index]);
        assert(s.held(address, index));
        let j = choose|j: int|
            0 <= j < s.ops.len() && #[trigger] s.ops[j].pc.pending() == Some(
                (address, index as usize),
            );
        assert(t.ops[j] == s.ops[j]);
        assert(t.ops[j].pc.pending() is Some);
    }
}

/// An operation that neither makes a block nor claims a slot shares none with another one.
proof fn lemma_keep_ops<T>(s: State<T>, t: State<T>, i: int)
    requires
        s.ops_ok(),
        0 <= i < s.ops.len(),
        t.ops == s.ops.update(i, t.ops[i]),
        t.ops[i].pc.owns() is None,
        t.ops[i].pc.pending() is None,
        t.op_ok(t.ops[i]),
        forall|j: int| 0 <= j < s.ops.len() && j != i ==> t.op_ok(#[trigger] s.ops[j]),
    ensures
        t.ops_ok(),
{
    assert forall|j: int| 0 <= j < t.ops.len() implies t.op_ok(#[trigger] t.ops[j]) by {
        if j != i {
            assert(t.ops[j] == s.ops[j]);
        }
    }
}

/// Steps that count an operation in or out.
proof fn lemma_count<T>(s: State<T>, i: int, fresh: usize)
    requires
        s.inv(),
        0 <= i < s.ops.len(),
        s.ops[i].pc is Arrive || s.ops[i].pc is Undo || s.ops[i].pc is Exit,
    ensures
        s.next(i, fresh).inv(),
{
    let op = s.ops[i];
    let t = s.next(i, fresh);
    let new_op = t.ops[i];
    assert(s.op_ok(op));
    lemma_tally_update(s.ops, in_phase(0), i, new_op);
    lemma_tally_update(s.ops, in_phase(1), i, new_op);
    lemma_tally_update(s.ops, lockers(), i, new_op);
    lemma_tally_covers(s.ops, in_phase(0), i);
    lemma_tally_covers(s.ops, in_phase(1), i);
    assert(t.counts_ok());
    lemma_same_memory(s, t);
    lemma_keep_ops(s, t, i);
    lemma_keep_blocks(s, t, i);
    lemma_keep_bounds(s, t, i);
}

/// Where a clearing operation gets to with a step that leaves the lists alone is in order.
#[verifier::spinoff_prover]
proof fn lemma_lock_op<T>(s: State<T>, i: int, fresh: usize)
    requires
        s.inv(),
        0 <= i < s.ops.len(),
        match s.ops[i].pc {
            Pc::Lock => true,
            Pc::Flip { .. } => true,
            Pc::Drain { .. } => true,
            Pc::Unlock => true,
            Pc::Collect { head } => head is None,
            Pc::Swap => s.tail is None,
            _ => false,
        },
    ensures
        s.next(i, fresh).op_ok(s.next(i, fresh).ops[i]),
{
    let op = s.ops[i];
    let t = s.next(i, fresh);
    assert(s.op_ok(op));
    assert(t.ops[i].taken == op.taken);
    assert(t.ops[i].value == op.value);
    assert(t.detached == s.detached);
    match op.pc {
        Pc::Lock => {
            assert(t.stage_fits(t.ops[i].pc));
        },
        Pc::Swap => {
            assert(t.stage_fits(Pc::HandOver));
        },
        Pc::Flip { block } => {
            assert(t.stage_fits(Pc::Drain { previous: s.phase as usize, block }));
        },
        Pc::Drain { .. } => {
            assert(t.stage_fits(t.ops[i].pc));
        },
        Pc::Collect { .. } => {
            assert(t.stage_fits(Pc::HandOver));
        },
        _ => {},
    }
}

/// Steps of a clearing operation that leave the lists alone.
#[verifier::spinoff_prover]
proof fn lemma_lock<T>(s: State<T>, i: int, fresh: usize)
    requires
        s.inv(),
        0 <= i < s.ops.len(),
        match s.ops[i].pc {
            Pc::Lock => true,
            Pc::Flip { .. } => true,
            Pc::Drain { .. } => true,
            Pc::Unlock => true,
            Pc::Collect { head } => head is None,
            Pc::Swap => s.tail is None,
            _ => false,
        },
    ensures
        s.next(i, fresh).inv(),
{
    let op = s.ops[i];
    let t = s.next(i, fresh);
    let new_op = t.ops[i];
    assert(s.op_ok(op));
    lemma_tally_update(s.ops, in_phase(0), i, new_op);
    lemma_tally_update(s.ops, in_phase(1), i, new_op);
    lemma_tally_update(s.ops, lockers(), i, new_op);
    assert(t.ops =~= s.ops.update(i, new_op));
    assert(t.counts_ok());
    assert(t.lists_ok()) by {
        assert forall|k: int| 0 <= k < t.attached.len() implies #[trigger] t.linked(
            t.attached,
            k,
        ) by {
            assert(s.linked(s.attached, k));
        }
        assert forall|k: int| 0 <= k < t.detached.len() implies #[trigger] t.linked(
            t.detached,
            k,
        ) by {
            assert(s.linked(s.detached, k));
        }
    }
    assert forall|j: int| 0 <= j < s.ops.len() && j != i implies t.op_ok(#[trigger] s.ops[j]) by {
        let other = s.ops[j];
        assert(s.op_ok(other));
        if op.pc.locks() && other.pc.locks() {
            if i < j {
                lemma_tally_covers_two(s.ops, lockers(), i, j);
            } else {
                lemma_tally_covers_two(s.ops, lockers(), j, i);
            }
        }
        if other.pc.locks() {
            lemma_tally_covers(s.ops, lockers(), j);
        }
        if let Pc::Drain { previous, .. } = op.pc {
            if other.pc.unit() == Some(previous) {
                lemma_tally_covers(s.ops, in_phase(previous as nat), j);
            }
        }
        assert(forall|address: usize| #[trigger] t.has(address) == s.has(address));
        assert(forall|address: usize| #[trigger] t.block(address) == s.block(address));
    }
    lemma_lock_op(s, i, fresh);
    lemma_keep_ops(s, t, i);
    lemma_keep_blocks(s, t, i);
    lemma_keep_bounds(s, t, i);
}

/// A block that stops being the most recent one is asked for slots only by the operations that
/// have already loaded its address.
proof fn lemma_tail_replaced<T>(s: State<T>, tail: usize)
    requires
        s.bounds_ok(),
        s.tail == Some(tail),
    ensures
        s.block(tail).write + tally(s.ops, claimants(tail)) <= BLOCK_SIZE + 2 * s.ops.len(),
{
    lemma_tally_bound_two(s.ops, refusals(tail), claimants(tail), 2);
}

/// The step that detaches the list.
#[verifier::spinoff_prover]
proof fn lemma_swap<T>(s: State<T>, i: int, fresh: usize)
    requires
        s.inv(),
        0 <= i < s.ops.len(),
        s.ops[i].pc is Swap,
        s.tail is Some,
    ensures
        s.next(i, fresh).inv(),
{
    let op = s.ops[i];
    let t = s.next(i, fresh);
    let new_op = t.ops[i];
    let tail = s.tail->0;
    assert(s.op_ok(op));
    lemma_tally_update(s.ops, in_phase(0), i, new_op);
    lemma_tally_update(s.ops, in_phase(1), i, new_op);
    lemma_tally_update(s.ops, lockers(), i, new_op);
    assert(t.counts_ok());
    assert(t.lists_ok()) by {
        assert forall|k: int| 0 <= k < t.detached.len() implies #[trigger] t.linked(
            t.detached,
            k,
        ) by {
            assert(s.linked(s.attached, k));
        }
    }
    assert forall|j: int| 0 <= j < s.ops.len() && j != i implies t.op_ok(#[trigger] s.ops[j]) by {
        let other = s.ops[j];
        assert(s.op_ok(other));
        if other.pc.locks() {
            if i < j {
                lemma_tally_covers_two(s.ops, lockers(), i, j);
            } else {
                lemma_tally_covers_two(s.ops, lockers(), j, i);
            }
        }
        assert(forall|address: usize| !s.detached.contains(address));
        assert(forall|address: usize| #[trigger] t.has(address) == s.has(address));
        assert(forall|address: usize| #[trigger] t.block(address) == s.block(address));
    }
    lemma_keep_ops(s, t, i);
    lemma_keep_blocks(s, t, i);
    assert(t.bounds_ok()) by {
        assert forall|address: usize| #[trigger] t.has(address) && t.tail != Some(address) implies t.block(
            address,
        ).write + tally(t.ops, claimants(address)) <= BLOCK_SIZE + 2 * t.ops.len() by {
            assert(s.has(address));
            lemma_tally_update(s.ops, claimants(address), i, new_op);
            if address == tail {
                lemma_tail_replaced(s, tail);
            }
        }
    }
}

/// A detached block that no other operation has hold of has no writes in flight.
pub proof fn lemma_owned_is_quiesced<T>(s: State<T>, address: usize)
    requires
        s.inv(),
        s.stage is Owned,
        s.detached.contains(address),
    ensures
        s.has(address),
        s.block(address).valid(),
        s.block(address).quiesced(),
{
    lemma_list_next(s, s.detached, address);
    let block = s.block(address);
    assert forall|index: int| 0 <= index < block.claimed() implies #[trigger] block.ready[index] by {
        if !block.ready[index] {
            assert(!s.block(address).ready[index]);
            assert(s.held(address, index));
            let j = choose|j: int|
                0 <= j < s.ops.len() && #[trigger] s.ops[j].pc.pending() == Some(
                    (address, index as usize),
                );
            assert(s.op_ok(s.ops[j]));
            assert(s.ops[j].pc.touches() == Some(address));
            assert(s.attached.contains(address));
        }
    }
}

/// The step that takes a block of the detached list.
#[verifier::spinoff_prover]
proof fn lemma_collect<T>(s: State<T>, i: int, fresh: usize)
    requires
        s.inv(),
        0 <= i < s.ops.len(),
        s.ops[i].pc matches Pc::Collect { head } && head is Some,
    ensures
        s.next(i, fresh).inv(),
{
    let op = s.ops[i];
    let t = s.next(i, fresh);
    let new_op = t.ops[i];
    let head = s.detached[0];
    assert(s.op_ok(op));
    assert(s.linked(s.detached, 0));
    assert(s.detached.contains(head));
    lemma_owned_is_quiesced(s, head);
    lemma_tally_update(s.ops, in_phase(0), i, new_op);
    lemma_tally_update(s.ops, in_phase(1), i, new_op);
    lemma_tally_update(s.ops, lockers(), i, new_op);
    assert(t.counts_ok());
    assert forall|address: usize| #[trigger] t.has(address) == (s.has(address) && address != head) by {}
    assert forall|address: usize| s.has(address) && address != head implies #[trigger] t.block(
        address,
    ) == s.block(address) by {}
    assert forall|address: usize| #[trigger] t.detached.contains(address) implies s.detached.contains(
        address,
    ) && address != head by {
        let k = choose|k: int| 0 <= k < t.detached.len() && t.detached[k] == address;
        assert(s.detached[k + 1] == address);
    }
    assert forall|address: usize| #[trigger] s.detached.contains(address) && address != head implies t.detached.contains(
        address,
    ) by {
        let k = choose|k: int| 0 <= k < s.detached.len() && s.detached[k] == address;
        assert(t.detached[k - 1] == address);
    }
    assert(t.lists_ok()) by {
        assert forall|k: int| 0 <= k < t.attached.len() implies #[trigger] t.linked(
            t.attached,
            k,
        ) by {
            assert(s.linked(s.attached, k));
            assert(s.attached.contains(s.attached[k]));
        }
        assert forall|k: int| 0 <= k < t.detached.len() implies #[trigger] t.linked(
            t.detached,
            k,
        ) by {
            assert(s.linked(s.detached, k + 1));
            assert(t.detached.contains(t.detached[k]));
        }
        assert(t.detached.no_duplicates());
    }
    assert forall|j: int| 0 <= j < s.ops.len() && j != i implies t.op_ok(#[trigger] s.ops[j]) by {
        let other = s.ops[j];
        assert(s.op_ok(other));
        if other.pc.locks() {
            if i < j {
                lemma_tally_covers_two(s.ops, lockers(), i, j);
            } else {
                lemma_tally_covers_two(s.ops, lockers(), j, i);
            }
        }
        if let Some(address) = other.pc.touches() {
            lemma_touchable(s, other.pc.entered()->0, address);
            assert(s.attached.contains(address));
            assert(address != head);
        }
    }
    assert(t.op_ok(new_op));
    lemma_keep_ops(s, t, i);
    assert(t.blocks_ok()) by {
        assert forall|address: usize| #[trigger] t.has(address) implies {
            ||| t.attached.contains(address)
            ||| t.detached.contains(address)
            ||| t.owned(address)
        } by {
            assert(s.has(address));
            if s.owned(address) {
                let j = choose|j: int|
                    0 <= j < s.ops.len() && (#[trigger] s.ops[j].pc.owns() matches Some(own)
                        && own.0 == address);
                assert(t.ops[j] == s.ops[j]);
                assert(t.ops[j].pc.owns() is Some);
            }
        }
        assert forall|address: usize, index: int|
            t.has(address) && 0 <= index < t.block(address).claimed() && !#[trigger] t.block(
                address,
            ).ready[index] implies t.held(address, index) by {
            assert(s.has(address));
            assert(!s.block(address).ready[index]);
            assert(s.held(address, index));
            let j = choose|j: int|
                0 <= j < s.ops.len() && #[trigger] s.ops[j].pc.pending() == Some(
                    (address, index as usize),
                );
            assert(t.ops[j] == s.ops[j]);
            assert(t.ops[j].pc.pending() is Some);
        }
    }
    if let Some(tail) = s.tail {
        assert(s.attached[0] == tail);
        assert(s.attached.contains(tail));
        lemma_list_next(s, s.attached, tail);
    }
    lemma_keep_bounds(s, t, i);
}

/// Steps that make a block.
#[verifier::spinoff_prover]
proof fn lemma_allocate<T>(s: State<T>, i: int, fresh: usize)
    requires
        s.inv(),
        0 <= i < s.ops.len(),
        s.ops[i].pc is Allocate || s.ops[i].pc is Grow,
        s.vacant(fresh),
    ensures
        s.next(i, fresh).inv(),
{
    let op = s.ops[i];
    let t = s.next(i, fresh);
    let new_op = t.ops[i];
    assert(s.op_ok(op));
    lemma_keep_counts(s, i, new_op);
    assert(t.counts_ok());
    assert forall|address: usize| #[trigger] t.has(address) == (s.has(address) || address
        == fresh) by {}
    assert forall|address: usize| s.has(address) implies #[trigger] t.block(address) == s.block(
        address,
    ) by {}
    assert forall|address: usize| #[trigger]
        s.attached.contains(address) implies s.has(address) by {
        lemma_list_next(s, s.attached, address);
    }
    assert forall|address: usize| #[trigger]
        s.detached.contains(address) implies s.has(address) by {
        lemma_list_next(s, s.detached, address);
    }
    assert(t.lists_ok()) by {
        assert forall|k: int| 0 <= k < t.attached.len() implies #[trigger] t.linked(
            t.attached,
            k,
        ) by {
            assert(s.linked(s.attached, k));
        }
        assert forall|k: int| 0 <= k < t.detached.len() implies #[trigger] t.linked(
            t.detached,
            k,
        ) by {
            assert(s.linked(s.detached, k));
        }
    }
    assert forall|j: int| 0 <= j < s.ops.len() && j != i implies t.op_ok(#[trigger] s.ops[j]) by {
        let other = s.ops[j];
        assert(s.op_ok(other));
    }
    assert(t.op_ok(new_op));
    assert(t.ops_ok()) by {
        assert forall|j: int| 0 <= j < t.ops.len() implies t.op_ok(#[trigger] t.ops[j]) by {
            if j != i {
                assert(t.ops[j] == s.ops[j]);
            }
        }
        assert forall|j: int| 0 <= j < s.ops.len() && j != i && (
        #[trigger] s.ops[j].pc.owns()) is Some implies (s.ops[j].pc.owns()->0).0 != fresh by {
            assert(s.op_ok(s.ops[j]));
        }
    }
    assert(t.blocks_ok()) by {
        assert forall|address: usize| #[trigger] t.has(address) implies {
            ||| t.attached.contains(address)
            ||| t.detached.contains(address)
            ||| t.owned(address)
        } by {
            if address == fresh {
                assert(t.ops[i].pc.owns() is Some);
            } else if s.owned(address) {
                let j = choose|j: int|
                    0 <= j < s.ops.len() && (#[trigger] s.ops[j].pc.owns() matches Some(own)
                        && own.0 == address);
                assert(t.ops[j] == s.ops[j]);
                assert(t.ops[j].pc.owns() is Some);
            }
        }
        assert forall|address: usize| #[trigger] t.has(address) implies t.block(
            address,
        ).valid() by {
            if address != fresh {
                assert(s.has(address));
            }
        }
        assert forall|address: usize, index: int|
            t.has(address) && 0 <= index < t.block(address).claimed() && !#[trigger] t.block(
                address,
            ).ready[index] implies t.held(address, index) by {
            assert(s.has(address));
            assert(!s.block(address).ready[index]);
            assert(s.held(address, index));
            let j = choose|j: int|
                0 <= j < s.ops.len() && #[trigger] s.ops[j].pc.pending() == Some(
                    (address, index as usize),
                );
            assert(t.ops[j] == s.ops[j]);
            assert(t.ops[j].pc.pending() is Some);
        }
    }
    assert(t.bounds_ok()) by {
        if let Some(tail) = s.tail {
            assert(s.attached[0] == tail);
            assert(s.attached.contains(tail));
            lemma_tally_update(s.ops, refusals(tail), i, new_op);
        }
        assert forall|address: usize| #[trigger] t.has(address) && t.tail != Some(address) implies t.block(
            address,
        ).write + tally(t.ops, claimants(address)) <= BLOCK_SIZE + 2 * t.ops.len() by {
            lemma_tally_update(s.ops, claimants(address), i, new_op);
            if address == fresh {
                lemma_tally_bound(t.ops, claimants(address), 1);
            } else {
                assert(s.has(address));
            }
        }
    }
}

/// Steps that throw away a block that somebody else was quicker to attach one for.
#[verifier::spinoff_prover]
proof fn lemma_discard<T>(s: State<T>, i: int, fresh: usize)
    requires
        s.inv(),
        0 <= i < s.ops.len(),
        match s.ops[i].pc {
            Pc::Install { .. } => s.tail is Some,
            Pc::Extend { block, .. } => s.tail != Some(block),
            _ => false,
        },
    ensures
        s.next(i, fresh).inv(),
{
    let op = s.ops[i];
    let t = s.next(i, fresh);
    let new_op = t.ops[i];
    let own = (op.pc.owns()->0).0;
    assert(s.op_ok(op));
    lemma_keep_counts(s, i, new_op);
    assert(t.counts_ok());
    assert forall|address: usize| #[trigger] t.has(address) == (s.has(address) && address != own) by {}
    assert forall|address: usize| s.has(address) && address != own implies #[trigger] t.block(
        address,
    ) == s.block(address) by {}
    assert forall|address: usize| #[trigger]
        s.attached.contains(address) implies s.has(address) by {
        lemma_list_next(s, s.attached, address);
    }
    assert forall|address: usize| #[trigger]
        s.detached.contains(address) implies s.has(address) by {
        lemma_list_next(s, s.detached, address);
    }
    if let Some(tail) = s.tail {
        assert(s.attached[0] == tail);
        assert(s.attached.contains(tail));
    }
    assert(t.lists_ok()) by {
        assert forall|k: int| 0 <= k < t.attached.len() implies #[trigger] t.linked(
            t.attached,
            k,
        ) by {
            assert(s.linked(s.attached, k));
            assert(s.attached.contains(s.attached[k]));
        }
        assert forall|k: int| 0 <= k < t.detached.len() implies #[trigger] t.linked(
            t.detached,
            k,
        ) by {
            assert(s.linked(s.detached, k));
            assert(s.detached.contains(s.detached[k]));
        }
    }
    assert forall|j: int| 0 <= j < s.ops.len() && j != i implies t.op_ok(#[trigger] s.ops[j]) by {
        let other = s.ops[j];
        assert(s.op_ok(other));
        if other.pc.owns() is Some {
            assert(s.ops[i].pc.owns() is Some);
            assert((s.ops[j].pc.owns()->0).0 != own);
        }
    }
    assert(t.op_ok(new_op));
    lemma_keep_ops(s, t, i);
    assert(t.blocks_ok()) by {
        assert forall|address: usize| #[trigger] t.has(address) implies {
            ||| t.attached.contains(address)
            ||| t.detached.contains(address)
            ||| t.owned(address)
        } by {
            if s.owned(address) {
                let j = choose|j: int|
                    0 <= j < s.ops.len() && (#[trigger] s.ops[j].pc.owns() matches Some(own)
                        && own.0 == address);
                assert(t.ops[j] == s.ops[j]);
                assert(t.ops[j].pc.owns() is Some);
            }
        }
        assert forall|address: usize| #[trigger] t.has(address) implies t.block(
            address,
        ).valid() by {
            assert(s.has(address));
        }
        assert forall|address: usize, index: int|
            t.has(address) && 0 <= index < t.block(address).claimed() && !#[trigger] t.block(
                address,
            ).ready[index] implies t.held(address, index) by {
            assert(s.has(address));
            assert(!s.block(address).ready[index]);
            assert(s.held(address, index));
            let j = choose|j: int|
                0 <= j < s.ops.len() && #[trigger] s.ops[j].pc.pending() == Some(
                    (address, index as usize),
                );
            assert(t.ops[j] == s.ops[j]);
            assert(t.ops[j].pc.pending() is Some);
        }
    }
    lemma_keep_bounds(s, t, i);
}

/// Steps that attach a block.
#[verifier::spinoff_prover]
proof fn lemma_attach<T>(s: State<T>, i: int, fresh: usize)
    requires
        s.inv(),
        0 <= i < s.ops.len(),
        match s.ops[i].pc {
            Pc::Install { .. } => s.tail is None,
            Pc::Extend { block, .. } => s.tail == Some(block),
            _ => false,
        },
    ensures
        s.next(i, fresh).inv(),
{
    let op = s.ops[i];
    let t = s.next(i, fresh);
    let new_op = t.ops[i];
    let own = (op.pc.owns()->0).0;
    assert(s.op_ok(op));
    lemma_keep_counts(s, i, new_op);
    assert(t.counts_ok());
    assert(forall|address: usize| #[trigger] t.has(address) == s.has(address));
    assert(forall|address: usize| #[trigger] t.block(address) == s.block(address));
    assert forall|address: usize| #[trigger] t.attached.contains(address) == (address == own
        || s.attached.contains(address)) by {
        if s.attached.contains(address) {
            let k = choose|k: int| 0 <= k < s.attached.len() && s.attached[k] == address;
            assert(t.attached[k + 1] == address);
        }
        assert(t.attached[0] == own);
        if t.attached.contains(address) && address != own {
            let k = choose|k: int| 0 <= k < t.attached.len() && t.attached[k] == address;
            assert(s.attached[k - 1] == address);
        }
    }
    assert(t.lists_ok()) by {
        assert forall|k: int| 0 <= k < t.attached.len() implies #[trigger] t.linked(
            t.attached,
            k,
        ) by {
            if k > 0 {
                assert(s.linked(s.attached, k - 1));
                assert(t.attached[k] == s.attached[k - 1]);
            }
        }
        assert forall|k: int| 0 <= k < t.detached.len() implies #[trigger] t.linked(
            t.detached,
            k,
        ) by {
            assert(s.linked(s.detached, k));
        }
        assert forall|k: int, l: int|
            0 <= k < t.attached.len() && 0 <= l < t.attached.len() && k != l implies t.attached[k]
            != t.attached[l] by {
            if k > 0 {
                assert(t.attached[k] == s.attached[k - 1]);
                assert(s.attached.contains(s.attached[k - 1]));
            }
            if l > 0 {
                assert(t.attached[l] == s.attached[l - 1]);
                assert(s.attached.contains(s.attached[l - 1]));
            }
        }
    }
    assert forall|j: int| 0 <= j < s.ops.len() && j != i implies t.op_ok(#[trigger] s.ops[j]) by {
        let other = s.ops[j];
        assert(s.op_ok(other));
        if other.pc.owns() is Some {
            assert(s.ops[i].pc.owns() is Some);
            assert((s.ops[j].pc.owns()->0).0 != own);
        }
    }
    assert(t.op_ok(new_op));
    lemma_keep_ops(s, t, i);
    assert(t.blocks_ok()) by {
        assert forall|address: usize| #[trigger] t.has(address) implies {
            ||| t.attached.contains(address)
            ||| t.detached.contains(address)
            ||| t.owned(address)
        } by {
            assert(s.has(address));
            if s.owned(address) {
                let j = choose|j: int|
                    0 <= j < s.ops.len() && (#[trigger] s.ops[j].pc.owns() matches Some(own)
                        && own.0 == address);
                if j != i {
                    assert(t.ops[j] == s.ops[j]);
                    assert(t.ops[j].pc.owns() is Some);
                }
            } else if s.attached.contains(address) {
                assert(t.attached.contains(address));
            }
        }
        assert forall|address: usize| #[trigger] t.has(address) implies t.block(
            address,
        ).valid() by {
            assert(s.has(address));
        }
        assert forall|address: usize, index: int|
            t.has(address) && 0 <= index < t.block(address).claimed() && !#[trigger] t.block(
                address,
            ).ready[index] implies t.held(address, index) by {
            assert(s.has(address));
            assert(!s.block(address).ready[index]);
            assert(s.held(address, index));
            let j = choose|j: int|
                0 <= j < s.ops.len() && #[trigger] s.ops[j].pc.pending() == Some(
                    (address, index as usize),
                );
            assert(t.ops[j] == s.ops[j]);
            assert(t.ops[j].pc.pending() is Some);
        }
    }
    assert(t.bounds_ok()) by {
        assert forall|address: usize| #[trigger] t.has(address) && t.tail != Some(address) implies t.block(
            address,
        ).write + tally(t.ops, claimants(address)) <= BLOCK_SIZE + 2 * t.ops.len() by {
            assert(s.has(address));
            lemma_tally_update(s.ops, claimants(address), i, new_op);
            if s.tail == Some(address) {
                lemma_tail_replaced(s, address);
            }
        }
    }
}

/// Steps that claim, write or publish a slot.
#[verifier::spinoff_prover]
proof fn lemma_write<T>(s: State<T>, i: int, fresh: usize)
    requires
        s.inv(),
        0 <= i < s.ops.len(),
        s.ops[i].pc is Claim || s.ops[i].pc is Fill || s.ops[i].pc is Publish,
    ensures
        s.next(i, fresh).inv(),
{
    let op = s.ops[i];
    let t = s.next(i, fresh);
    let new_op = t.ops[i];
    let target = op.pc.touches()->0;
    assert(s.op_ok(op));
    lemma_touchable(s, op.pc.entered()->0, target);
    lemma_keep_counts(s, i, new_op);
    assert(t.counts_ok());
    let before = s.block(target);
    let after = t.block(target);
    assert(before.valid());
    assert(after.valid()) by {
        assert forall|j: int| after.write <= j < BLOCK_SIZE implies #[trigger] after.slots[j] is None
            && !after.ready[j] by {
            assert(before.slots[j] is None);
        }
        assert forall|j: int| 0 <= j < BLOCK_SIZE && #[trigger] after.ready[j] implies after.slots[j] is Some by {
            if before.ready[j] {
                assert(before.slots[j] is Some);
            }
        }
    }
    assert(before.grows_to(after));
    lemma_leading_run_grows(before.ready, after.ready);
    assert forall|address: usize| #[trigger] t.has(address) == s.has(address) by {}
    assert forall|address: usize| s.has(address) && address != target implies #[trigger] t.block(
        address,
    ) == s.block(address) by {}
    assert forall|address: usize| #[trigger]
        s.attached.contains(address) implies s.has(address) by {
        lemma_list_next(s, s.attached, address);
    }
    assert forall|address: usize| #[trigger]
        s.detached.contains(address) implies s.has(address) by {
        lemma_list_next(s, s.detached, address);
    }
    assert(t.lists_ok()) by {
        assert forall|k: int| 0 <= k < t.attached.len() implies #[trigger] t.linked(
            t.attached,
            k,
        ) by {
            assert(s.linked(s.attached, k));
        }
        assert forall|k: int| 0 <= k < t.detached.len() implies #[trigger] t.linked(
            t.detached,
            k,
        ) by {
            assert(s.linked(s.detached, k));
        }
    }
    assert forall|j: int| 0 <= j < s.ops.len() && j != i implies t.op_ok(#[trigger] s.ops[j]) by {
        let other = s.ops[j];
        assert(s.op_ok(other));
        if other.pc.pending() is Some {
            assert(s.ops[j].pc.pending() is Some);
            if op.pc.pending() is Some {
                assert(s.ops[i].pc.pending() is Some);
                assert(s.ops[i].pc.pending() != s.ops[j].pc.pending());
            }
        }
    }
    assert(t.op_ok(new_op));
    assert(t.ops_ok()) by {
        assert forall|j: int| 0 <= j < t.ops.len() implies t.op_ok(#[trigger] t.ops[j]) by {
            if j != i {
                assert(t.ops[j] == s.ops[j]);
            }
        }
        assert forall|j: int| 0 <= j < s.ops.len() && j != i && (
        #[trigger] s.ops[j].pc.pending()) is Some implies s.ops[j].pc.pending()
            != new_op.pc.pending() by {
            assert(s.op_ok(s.ops[j]));
            if op.pc.pending() is Some {
                assert(s.ops[i].pc.pending() != s.ops[j].pc.pending());
            }
        }
    }
    assert(t.blocks_ok()) by {
        assert forall|address: usize| #[trigger] t.has(address) implies {
            ||| t.attached.contains(address)
            ||| t.detached.contains(address)
            ||| t.owned(address)
        } by {
            assert(s.has(address));
            if s.owned(address) {
                let j = choose|j: int|
                    0 <= j < s.ops.len() && (#[trigger] s.ops[j].pc.owns() matches Some(own)
                        && own.0 == address);
                assert(t.ops[j] == s.ops[j]);
                assert(t.ops[j].pc.owns() is Some);
            }
        }
        assert forall|address: usize| #[trigger] t.has(address) implies t.block(
            address,
        ).valid() by {
            assert(s.has(address));
        }
        assert forall|address: usize, index: int|
            t.has(address) && 0 <= index < t.block(address).claimed() && !#[trigger] t.block(
                address,
            ).ready[index] implies t.held(address, index) by {
            assert(s.has(address));
            assert(!s.block(address).ready[index]);
            if op.pc is Claim && address == target && index == before.write {
                assert(t.ops[i].pc.pending() == Some((address, index as usize)));
            } else {
                assert(s.held(address, index));
                let j = choose|j: int|
                    0 <= j < s.ops.len() && #[trigger] s.ops[j].pc.pending() == Some(
                        (address, index as usize),
                    );
                if j != i {
                    assert(t.ops[j] == s.ops[j]);
                }
                assert(t.ops[j].pc.pending() is Some);
            }
        }
    }
    assert(t.bounds_ok()) by {
        if let Some(tail) = s.tail {
            assert(s.attached[0] == tail);
            assert(s.attached.contains(tail));
            lemma_tally_update(s.ops, refusals(tail), i, new_op);
        }
        assert forall|address: usize| #[trigger] t.has(address) && t.tail != Some(address) implies t.block(
            address,
        ).write + tally(t.ops, claimants(address)) <= BLOCK_SIZE + 2 * t.ops.len() by {
            assert(s.has(address));
            lemma_tally_update(s.ops, claimants(address), i, new_op);
        }
    }
}

/// Whatever the operations on a stripe are doing, the step that any one of them takes next keeps
/// the stripe in order.
pub proof fn law_step_keeps_order<T>(s: State<T>, i: int, fresh: usize)
    requires
        s.inv(),
        0 <= i < s.ops.len(),
        s.vacant(fresh),
    ensures
        s.next(i, fresh).inv(),
{
    match s.ops[i].pc {
        Pc::Idle => {},
        Pc::Done { .. } => {},
        Pc::HandOver => {},
        Pc::Guess => lemma_look(s, i, fresh),
        Pc::LoadTail { .. } => lemma_look(s, i, fresh),
        Pc::ProbeTail { .. } => lemma_look(s, i, fresh),
        Pc::ProbeLink { .. } => lemma_look(s, i, fresh),
        Pc::ProbeNext { .. } => lemma_look(s, i, fresh),
        Pc::Measure { .. } => lemma_look(s, i, fresh),
        Pc::Compare { .. } => lemma_look(s, i, fresh),
        Pc::Deliver { .. } => lemma_look(s, i, fresh),
        Pc::Advance { .. } => lemma_look(s, i, fresh),
        Pc::Arrive { .. } => lemma_count(s, i, fresh),
        Pc::Undo { .. } => lemma_count(s, i, fresh),
        Pc::Exit { .. } => lemma_count(s, i, fresh),
        Pc::Allocate { .. } => lemma_allocate(s, i, fresh),
        Pc::Grow { .. } => lemma_allocate(s, i, fresh),
        Pc::Install { .. } => {
            if s.tail is None {
                lemma_attach(s, i, fresh);
            } else {
                lemma_discard(s, i, fresh);
            }
        },
        Pc::Extend { block, .. } => {
            if s.tail == Some(block) {
                lemma_attach(s, i, fresh);
            } else {
                lemma_discard(s, i, fresh);
            }
        },
        Pc::Claim { .. } => lemma_write(s, i, fresh),
        Pc::Fill { .. } => lemma_write(s, i, fresh),
        Pc::Publish { .. } => lemma_write(s, i, fresh),
        Pc::Lock => lemma_lock(s, i, fresh),
        Pc::Flip { .. } => lemma_lock(s, i, fresh),
        Pc::Drain { .. } => lemma_lock(s, i, fresh),
        Pc::Unlock => lemma_lock(s, i, fresh),
        Pc::Swap => {
            if s.tail is None {
                lemma_lock(s, i, fresh);
            } else {
                lemma_swap(s, i, fresh);
            }
        },
        Pc::Collect { head } => {
            if head is None {
                lemma_lock(s, i, fresh);
            } else {
                lemma_collect(s, i, fresh);
            }
        },
    }
}

/// Starting an operation keeps the stripe in order, as long as the counts have room for it.
#[verifier::spinoff_prover]
pub proof fn lemma_begin<T>(s: State<T>, i: int, task: Task, value: Option<T>)
    requires
        s.inv(),
        0 <= i <= s.ops.len(),
        i < s.ops.len() ==> s.ops[i] == OpView::<T>::idle(),
        i == s.ops.len() ==> i < COUNT_MASK,
        value is Some <==> task == Task::Push,
    ensures
        s.begin(i, task, value).inv(),
{
    let op = OpView::start(task, value);
    let t = s.begin(i, task, value);
    if i < s.ops.len() {
        assert(s.op_ok(op));
        lemma_keep(s, i, op);
    } else {
        lemma_tally_push(s.ops, in_phase(0), op);
        lemma_tally_push(s.ops, in_phase(1), op);
        lemma_tally_push(s.ops, lockers(), op);
        assert(t.counts_ok());
        lemma_same_memory(s, t);
        assert(t.ops_ok()) by {
            assert forall|j: int| 0 <= j < t.ops.len() implies t.op_ok(#[trigger] t.ops[j]) by {
                if j < s.ops.len() {
                    assert(t.ops[j] == s.ops[j]);
                }
            }
        }
        assert(t.blocks_ok()) by {
            assert forall|address: usize| #[trigger] t.has(address) implies {
                ||| t.attached.contains(address)
                ||| t.detached.contains(address)
                ||| t.owned(address)
            } by {
                assert(s.has(address));
                if s.owned(address) {
                    let j = choose|j: int|
                        0 <= j < s.ops.len() && (#[trigger] s.ops[j].pc.owns() matches Some(own)
                            && own.0 == address);
                    assert(t.ops[j] == s.ops[j]);
                    assert(t.ops[j].pc.owns() is Some);
                }
            }
            assert forall|address: usize| #[trigger] t.has(address) implies t.block(
                address,
            ).valid() by {
                assert(s.has(address));
            }
            assert forall|address: usize, index: int|
                t.has(address) && 0 <= index < t.block(address).claimed() && !#[trigger] t.block(
                    address,
                ).ready[index] implies t.held(address, index) by {
                assert(s.has(address));
                assert(!s.block(address).ready[index]);
                assert(s.held(address, index));
                let j = choose|j: int|
                    0 <= j < s.ops.len() && #[trigger] s.ops[j].pc.pending() == Some(
                        (address, index as usize),
                    );
                assert(t.ops[j] == s.ops[j]);
                assert(t.ops[j].pc.pending() is Some);
            }
        }
        assert(t.bounds_ok()) by {
            if let Some(tail) = s.tail {
                lemma_tally_push(s.ops, refusals(tail), op);
            }
            assert forall|address: usize| #[trigger] t.has(address) && t.tail != Some(address) implies t.block(
                address,
            ).write + tally(t.ops, claimants(address)) <= BLOCK_SIZE + 2 * t.ops.len() by {
                assert(s.has(address));
                lemma_tally_push(s.ops, claimants(address), op);
            }
        }
    }
}

/// Having an operation that is looking at a block exit at once keeps the stripe in order.
pub proof fn lemma_abandon<T>(s: State<T>, i: int)
    requires
        s.inv(),
        0 <= i < s.ops.len(),
        s.ops[i].pc is Deliver,
    ensures
        s.abandon(i).inv(),
{
    assert(s.op_ok(s.ops[i]));
    lemma_keep(s, i, s.abandon(i).ops[i]);
}

/// Handing out the blocks that a clearing operation has taken keeps the stripe in order.
pub proof fn lemma_hand_over<T>(s: State<T>, i: int)
    requires
        s.inv(),
        0 <= i < s.ops.len(),
        s.ops[i].pc is HandOver,
    ensures
        s.hand_over(i).inv(),
{
    assert(s.op_ok(s.ops[i]));
    lemma_keep(s, i, OpView { taken: Seq::empty(), ..s.ops[i].at(Pc::Unlock) });
}

/// Forgetting a finished operation keeps the stripe in order.
pub proof fn lemma_finish<T>(s: State<T>, i: int)
    requires
        s.inv(),
        0 <= i < s.ops.len(),
        s.ops[i].pc is Done,
    ensures
        s.finish(i).inv(),
{
    assert(s.op_ok(s.ops[i]));
    lemma_keep(s, i, OpView::idle());
}

/// The count of a phase that an operation is about to be counted in has room.
pub proof fn lemma_arrive_has_room<T>(s: State<T>, i: int, phase: usize)
    requires
        s.inv(),
        0 <= i < s.ops.len(),
        s.ops[i].pc == (Pc::Arrive { phase }),
    ensures
        phase < 2,
        s.count(phase as nat) < COUNT_MASK,
{
    assert(s.op_ok(s.ops[i]));
    let counted = s.ops[i].at(Pc::Undo { phase });
    lemma_tally_update(s.ops, in_phase(phase as nat), i, counted);
    lemma_tally_bound(s.ops.update(i, counted), in_phase(phase as nat), 1);
}

/// The count of a phase that an operation is about to leave is not zero.
pub proof fn lemma_leave_has_count<T>(s: State<T>, i: int, phase: usize)
    requires
        s.inv(),
        0 <= i < s.ops.len(),
        s.ops[i].pc.unit() == Some(phase),
    ensures
        phase < 2,
        s.count(phase as nat) > 0,
{
    assert(s.op_ok(s.ops[i]));
    lemma_tally_covers(s.ops, in_phase(phase as nat), i);
}

/// The write index of a block that an operation is about to ask for a slot has room.
pub proof fn lemma_claim_has_room<T>(s: State<T>, i: int)
    requires
        s.inv(),
        0 <= i < s.ops.len(),
        s.ops[i].pc is Claim,
    ensures
        s.block(s.ops[i].pc.touches()->0).write < usize::MAX,
{
    let address = s.ops[i].pc.touches()->0;
    assert(s.op_ok(s.ops[i]));
    lemma_touchable(s, s.ops[i].pc.entered()->0, address);
    assert(s.has(address));
    lemma_tally_bound(s.ops, refusals(address), 2);
    lemma_word_size();
}

} // verus!
