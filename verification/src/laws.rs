//! What the steps of operations on a stripe keep, whatever their interleaving.
use crate::block::{lemma_quiesced, BlockView};
use crate::model::{heap_with, in_block, in_cell, in_op, in_slot, OpView, Pc, Stage, State, Task};
use crate::protocol::{in_phase, lemma_list_next, lemma_touchable, lockers};
use crate::steps::{law_step_keeps_order, lemma_owned_is_quiesced};
use crate::sums::{
    gather, lemma_gather_nothing, lemma_gather_push, lemma_gather_update, lemma_tally_covers,
    lemma_tally_covers_two, lemma_tally_witness, lemma_tally_zero,
};
use vstd::multiset::Multiset;
use vstd::prelude::*;
use vstd::seq_lib::lemma_multiset_commutative;

verus! {

proof fn lemma_fresh_holds_nothing<T>(next: Option<usize>)
    ensures
        in_block::<T>()(BlockView::fresh(next)) == Multiset::<T>::empty(),
{
    lemma_gather_nothing(BlockView::<T>::fresh(next).slots, in_slot());
}

/// Putting a block where there is another one, or none, replaces the values of that one.
proof fn lemma_heap_with<T>(heap: Seq<Option<BlockView<T>>>, address: usize, block: BlockView<T>)
    requires
        address <= heap.len(),
    ensures
        address < heap.len() ==> gather(heap_with(heap, address, block), in_cell()).add(
            in_cell()(heap[address as int]),
        ) == gather(heap, in_cell()).add(in_block()(block)),
        address == heap.len() ==> gather(heap_with(heap, address, block), in_cell()) == gather(
            heap,
            in_cell(),
        ).add(in_block()(block)),
{
    if address < heap.len() {
        lemma_gather_update(heap, in_cell(), address as int, Some(block));
    } else {
        lemma_gather_push(heap, in_cell(), Some(block));
    }
}

/// What is moved from one place to another is neither lost nor duplicated.
proof fn lemma_moved<T>(
    from: Multiset<T>,
    from_after: Multiset<T>,
    to: Multiset<T>,
    to_after: Multiset<T>,
    from_old: Multiset<T>,
    from_new: Multiset<T>,
    to_old: Multiset<T>,
    to_new: Multiset<T>,
)
    requires
        from_after.add(from_old) == from.add(from_new),
        to_after.add(to_old) == to.add(to_new),
        from_new.add(to_new) == from_old.add(to_old),
    ensures
        from_after.add(to_after) == from.add(to),
{
    assert forall|v: T| #[trigger] from_after.add(to_after).count(v) == from.add(to).count(v) by {
        assert(from_after.add(from_old).count(v) == from_after.count(v) + from_old.count(v));
        assert(from.add(from_new).count(v) == from.count(v) + from_new.count(v));
        assert(to_after.add(to_old).count(v) == to_after.count(v) + to_old.count(v));
        assert(to.add(to_new).count(v) == to.count(v) + to_new.count(v));
        assert(from_new.add(to_new).count(v) == from_new.count(v) + to_new.count(v));
        assert(from_old.add(to_old).count(v) == from_old.count(v) + to_old.count(v));
        assert(from_after.add(to_after).count(v) == from_after.count(v) + to_after.count(v));
        assert(from.add(to).count(v) == from.count(v) + to.count(v));
    }
    assert(from_after.add(to_after) =~= from.add(to));
}

/// Nothing is lost and nothing is duplicated: whatever the operations on a stripe are doing, the
/// step that any one of them takes next keeps the values that the stripe holds.
pub proof fn law_step_keeps_values<T>(s: State<T>, i: int, fresh: usize)
    requires
        s.inv(),
        0 <= i < s.ops.len(),
        s.vacant(fresh),
    ensures
        s.next(i, fresh).total() == s.total(),
{
    let t = s.next(i, fresh);
    let op = s.ops[i];
    let new_op = t.ops[i];
    assert(s.op_ok(op));
    assert(t.ops =~= s.ops.update(i, new_op));
    lemma_gather_update(s.ops, in_op(), i, new_op);
    let none = Multiset::<T>::empty();
    let heap = gather(s.heap, in_cell());
    let heap_after = gather(t.heap, in_cell());
    let ops = gather(s.ops, in_op());
    let ops_after = gather(t.ops, in_op());
    if let Some(address) = op.pc.touches() {
        lemma_touchable(s, op.pc.entered()->0, address);
    }
    match op.pc {
        Pc::Allocate { .. } => {
            lemma_fresh_holds_nothing::<T>(None);
            lemma_heap_with(s.heap, fresh, BlockView::fresh(None));
            assert(heap_after.add(none) =~= heap_after);
            lemma_moved(heap, heap_after, ops, ops_after, none, none, in_op()(op), in_op()(new_op));
        },
        Pc::Grow { block, .. } => {
            lemma_fresh_holds_nothing::<T>(Some(block));
            lemma_heap_with(s.heap, fresh, BlockView::fresh(Some(block)));
            assert(heap_after.add(none) =~= heap_after);
            lemma_moved(heap, heap_after, ops, ops_after, none, none, in_op()(op), in_op()(new_op));
        },
        Pc::Install { block, .. } => {
            lemma_fresh_holds_nothing::<T>(None);
            if s.tail is Some {
                lemma_gather_update(s.heap, in_cell(), block as int, None);
            }
            lemma_moved(heap, heap_after, ops, ops_after, none, none, in_op()(op), in_op()(new_op));
        },
        Pc::Extend { block, fresh, .. } => {
            lemma_fresh_holds_nothing::<T>(Some(block));
            if s.tail != Some(block) {
                lemma_gather_update(s.heap, in_cell(), fresh as int, None);
            }
            lemma_moved(heap, heap_after, ops, ops_after, none, none, in_op()(op), in_op()(new_op));
        },
        Pc::Claim { block, .. } => {
            let before = in_block()(s.block(block));
            lemma_heap_with(s.heap, block, t.block(block));
            lemma_moved(
                heap,
                heap_after,
                ops,
                ops_after,
                before,
                before,
                in_op()(op),
                in_op()(new_op),
            );
        },
        Pc::Publish { block, .. } => {
            let before = in_block()(s.block(block));
            lemma_heap_with(s.heap, block, t.block(block));
            lemma_moved(
                heap,
                heap_after,
                ops,
                ops_after,
                before,
                before,
                in_op()(op),
                in_op()(new_op),
            );
        },
        Pc::Fill { block, index, .. } => {
            let before = in_block()(s.block(block));
            let after = in_block()(t.block(block));
            lemma_heap_with(s.heap, block, t.block(block));
            assert(s.block(block).valid());
            lemma_gather_update(s.block(block).slots, in_slot(), index as int, op.value);
            assert(after.add(none) =~= after);
            assert(after.add(in_op()(new_op)) =~= before.add(in_op()(op)));
            lemma_moved(
                heap,
                heap_after,
                ops,
                ops_after,
                before,
                after,
                in_op()(op),
                in_op()(new_op),
            );
        },
        Pc::Collect { head: Some(block) } => {
            let before = in_block()(s.block(block));
            lemma_list_next(s, s.detached, s.detached[0]);
            lemma_gather_update(s.heap, in_cell(), block as int, None);
            lemma_gather_push(op.taken, in_block(), s.block(block));
            assert(none.add(in_op()(new_op)) =~= before.add(in_op()(op)));
            lemma_moved(
                heap,
                heap_after,
                ops,
                ops_after,
                before,
                none,
                in_op()(op),
                in_op()(new_op),
            );
        },
        _ => {
            assert(t.heap == s.heap);
            lemma_moved(heap, heap_after, ops, ops_after, none, none, in_op()(op), in_op()(new_op));
        },
    }
}

/// Starting an operation adds the value that it pushes, if it pushes one.
pub proof fn law_begin_adds_value<T>(s: State<T>, i: int, task: Task, value: Option<T>)
    requires
        0 <= i <= s.ops.len(),
        i < s.ops.len() ==> s.ops[i] == OpView::<T>::idle(),
    ensures
        s.begin(i, task, value).total() == s.total().add(in_slot()(value)),
{
    let op = OpView::start(task, value);
    let t = s.begin(i, task, value);
    assert(in_op()(op) =~= in_slot()(value));
    assert(in_op()(OpView::<T>::idle()) =~= Multiset::<T>::empty());
    if i < s.ops.len() {
        lemma_gather_update(s.ops, in_op(), i, op);
        assert(gather(t.ops, in_op()).add(Multiset::<T>::empty()) =~= gather(t.ops, in_op()));
    } else {
        lemma_gather_push(s.ops, in_op(), op);
    }
    assert(t.total() =~= s.total().add(in_slot()(value)));
}

/// Handing out the blocks that a clearing operation has taken takes the values of those blocks
/// out of the stripe, and no others.
pub proof fn law_hand_over_removes_values<T>(s: State<T>, i: int)
    requires
        s.inv(),
        0 <= i < s.ops.len(),
        s.ops[i].pc is HandOver,
    ensures
        s.hand_over(i).total().add(gather(s.ops[i].taken, in_block())) == s.total(),
{
    let t = s.hand_over(i);
    let op = s.ops[i];
    assert(s.op_ok(op));
    lemma_gather_update(s.ops, in_op(), i, t.ops[i]);
    let taken = gather(op.taken, in_block());
    assert(in_op()(op) =~= taken);
    assert(in_op()(t.ops[i]) =~= Multiset::<T>::empty());
    assert(gather(s.ops, in_op()).add(Multiset::<T>::empty()) =~= gather(s.ops, in_op()));
    assert(gather(t.ops, in_op()).add(taken) == gather(s.ops, in_op()));
    assert(t.total().add(taken) =~= gather(t.heap, in_cell()).add(
        gather(t.ops, in_op()).add(taken),
    ));
}

/// Having an operation that is looking at a block exit at once keeps the values that the stripe
/// holds.
pub proof fn law_abandon_keeps_values<T>(s: State<T>, i: int)
    requires
        0 <= i < s.ops.len(),
        s.ops[i].pc is Deliver,
    ensures
        s.abandon(i).total() == s.total(),
{
    let t = s.abandon(i);
    let held = in_op()(s.ops[i]);
    lemma_gather_update(s.ops, in_op(), i, t.ops[i]);
    assert(gather(t.ops, in_op()) =~= gather(s.ops, in_op())) by {
        assert forall|v: T| #[trigger] gather(t.ops, in_op()).count(v) == gather(
            s.ops,
            in_op(),
        ).count(v) by {
            assert(gather(t.ops, in_op()).add(held).count(v) == gather(t.ops, in_op()).count(v)
                + held.count(v));
            assert(gather(s.ops, in_op()).add(held).count(v) == gather(s.ops, in_op()).count(v)
                + held.count(v));
        }
    }
}

/// Abandoning takes a reading operation out of the stripe: it has no hold of a block any more, it is
/// done with its next step, and with that step it stops being counted, so that it does not hold up a
/// clear.
pub proof fn law_abandoned_is_out<T>(s: State<T>, i: int, fresh: usize)
    requires
        s.inv(),
        0 <= i < s.ops.len(),
        s.ops[i].pc is Deliver,
    ensures
        s.abandon(i).ops[i].pc.touches() is None,
        s.abandon(i).next(i, fresh).ops[i].pc == (Pc::Done { answer: None }),
        s.abandon(i).next(i, fresh).heap == s.heap,
        s.abandon(i).next(i, fresh).phase == s.phase,
        ({
            let phase = s.ops[i].pc.entered()->0 as nat;
            let after = s.abandon(i).next(i, fresh);
            &&& after.count(phase) == s.count(phase) - 1
            &&& after.count((1 - phase) as nat) == s.count((1 - phase) as nat)
        }),
        forall|j: int|
            0 <= j < s.ops.len() && j != i ==> #[trigger] s.abandon(i).next(i, fresh).ops[j]
                == s.ops[j],
{
    assert(s.op_ok(s.ops[i]));
    lemma_tally_covers(s.ops, in_phase(s.ops[i].pc.entered()->0 as nat), i);
}

/// Forgetting a finished operation keeps the values that the stripe holds.
pub proof fn law_finish_keeps_values<T>(s: State<T>, i: int)
    requires
        s.inv(),
        0 <= i < s.ops.len(),
        s.ops[i].pc is Done,
    ensures
        s.finish(i).total() == s.total(),
{
    let t = s.finish(i);
    assert(s.op_ok(s.ops[i]));
    lemma_gather_update(s.ops, in_op(), i, t.ops[i]);
    assert(in_op()(s.ops[i]) =~= Multiset::<T>::empty());
    assert(in_op()(t.ops[i]) =~= Multiset::<T>::empty());
    assert(gather(s.ops, in_op()).add(Multiset::<T>::empty()) =~= gather(s.ops, in_op()));
    assert(gather(t.ops, in_op()).add(Multiset::<T>::empty()) =~= gather(t.ops, in_op()));
}

/// A block only ever grows while it is allocated: claims are not taken back, flags are not
/// lowered, and a slot that has been written is never written again.
pub proof fn law_blocks_only_grow<T>(s: State<T>, i: int, fresh: usize, address: usize)
    requires
        s.inv(),
        0 <= i < s.ops.len(),
        s.vacant(fresh),
        s.has(address),
        s.next(i, fresh).has(address),
    ensures
        s.block(address).grows_to(s.next(i, fresh).block(address)),
{
    let op = s.ops[i];
    assert(s.op_ok(op));
    let before = s.block(address);
    let after = s.next(i, fresh).block(address);
    if let Some(target) = op.pc.touches() {
        lemma_touchable(s, op.pc.entered()->0, target);
        assert(s.block(target).valid());
        if address != target {
            assert(after == before);
        } else {
            match op.pc {
                Pc::Claim { .. } => assert(after == before.with_claim()),
                Pc::Fill { index, .. } => {
                    assert(before.slots[index as int] is None);
                    assert(after == before.with_value(index as int, op.value->0));
                },
                Pc::Publish { index, .. } => assert(after == before.with_ready(index as int)),
                _ => assert(after == before),
            }
        }
    } else {
        if let Pc::Collect { head: Some(block) } = op.pc {
            assert(s.detached.contains(block));
            lemma_list_next(s, s.detached, block);
        }
        assert(after == before);
    }
}

/// No use after free: every block that an operation may look into is allocated, and it stays
/// allocated while other operations go on.
pub proof fn law_held_blocks_stay<T>(s: State<T>, i: int, j: int, fresh: usize)
    requires
        s.inv(),
        0 <= i < s.ops.len(),
        0 <= j < s.ops.len(),
        i != j,
        s.vacant(fresh),
        s.ops[j].pc.touches() is Some,
    ensures
        s.has(s.ops[j].pc.touches()->0),
        s.next(i, fresh).has(s.ops[j].pc.touches()->0),
{
    let t = s.next(i, fresh);
    law_step_keeps_order(s, i, fresh);
    assert(t.ops[j] == s.ops[j]);
    assert(s.op_ok(s.ops[j]));
    assert(t.op_ok(t.ops[j]));
    lemma_touchable(s, s.ops[j].pc.entered()->0, s.ops[j].pc.touches()->0);
    lemma_touchable(t, t.ops[j].pc.entered()->0, t.ops[j].pc.touches()->0);
}

/// A block's data is handed out only after a moment at which the block had no writes in flight,
/// so that all writes that had been claimed by then are seen.
pub proof fn law_delivered_is_settled<T>(s: State<T>, i: int, fresh: usize)
    requires
        s.inv(),
        0 <= i < s.ops.len(),
        !(s.ops[i].pc is Deliver),
        s.next(i, fresh).ops[i].pc is Deliver,
    ensures
        s.ops[i].pc.touches() matches Some(block) && s.next(i, fresh).ops[i].pc.touches() == Some(
            block,
        ) && s.has(block) && s.block(block).quiesced(),
{
    let op = s.ops[i];
    assert(s.op_ok(op));
    let block = op.pc.touches()->0;
    lemma_touchable(s, op.pc.entered()->0, block);
    assert(s.block(block).valid());
    lemma_quiesced(s.block(block));
}

/// Waiting for the operations of the previous phase cannot be starved: while a clearing operation
/// waits for them, no operation enters the stripe in that phase.
pub proof fn law_drain_admits_nobody<T>(s: State<T>, i: int, fresh: usize, previous: usize)
    requires
        s.inv(),
        0 <= i < s.ops.len(),
        s.vacant(fresh),
        s.stage == (Stage::Draining { previous }),
        s.ops[i].pc.entered() != Some(previous),
    ensures
        s.next(i, fresh).ops[i].pc.entered() != Some(previous),
{
    assert(s.op_ok(s.ops[i]));
}

/// An operation that has entered the stripe after the phase was flipped does not see the detached
/// blocks.
pub proof fn law_late_entrants_see_no_detached<T>(s: State<T>, i: int)
    requires
        s.inv(),
        0 <= i < s.ops.len(),
        s.stage is Draining || s.stage is Owned,
        s.ops[i].pc.entered() matches Some(phase) && phase == s.phase,
        s.ops[i].pc.touches() is Some,
    ensures
        s.attached.contains(s.ops[i].pc.touches()->0),
        !s.detached.contains(s.ops[i].pc.touches()->0),
{
    assert(s.op_ok(s.ops[i]));
}

/// Whether an operation has hold of a block of the detached list.
pub open spec fn holds_detached<T>(s: State<T>, i: int) -> bool {
    s.ops[i].pc.touches() matches Some(address) && s.detached.contains(address)
}

/// An operation that has just begun has no hold of a detached block.
pub proof fn law_begun_holds_no_detached<T>(s: State<T>, i: int, task: Task, value: Option<T>)
    requires
        0 <= i <= s.ops.len(),
    ensures
        !holds_detached(s.begin(i, task, value), i),
{
}

/// An operation that has no hold of a detached block gets none, whatever step is taken, by itself or
/// by another operation, unless that step detaches a list.  So an operation that begins after a
/// list was detached never gets hold of that list.
pub proof fn law_no_hold_is_gained<T>(s: State<T>, i: int, j: int, fresh: usize)
    requires
        s.inv(),
        0 <= i < s.ops.len(),
        0 <= j < s.ops.len(),
        s.vacant(fresh),
        !holds_detached(s, i),
        !(s.ops[j].pc is Swap),
    ensures
        !holds_detached(s.next(j, fresh), i),
{
    let t = s.next(j, fresh);
    let op = s.ops[i];
    assert(s.op_ok(op));
    assert(s.op_ok(s.ops[j]));
    assert forall|address: usize| #[trigger] t.detached.contains(address) implies s.detached.contains(
        address,
    ) by {
        if t.detached != s.detached {
            let k = choose|k: int| 0 <= k < t.detached.len() && t.detached[k] == address;
            assert(s.detached[k + 1] == address);
        }
    }
    if let Some(tail) = s.tail {
        assert(s.attached[0] == tail);
        assert(s.attached.contains(tail));
    }
    if i == j {
        if let Some(address) = op.pc.touches() {
            assert(s.attached.contains(address));
            lemma_list_next(s, s.attached, address);
        }
    } else {
        assert(t.ops[i] == op);
    }
}

/// An operation that has no hold of a detached block, and is not the clearing operation, leaves the
/// detached blocks as they are: what it writes is not handed out with them.
pub proof fn law_no_hold_no_change<T>(s: State<T>, i: int, fresh: usize, address: usize)
    requires
        s.inv(),
        0 <= i < s.ops.len(),
        s.vacant(fresh),
        !s.ops[i].pc.locks(),
        !holds_detached(s, i),
        s.detached.contains(address),
    ensures
        s.next(i, fresh).detached == s.detached,
        s.next(i, fresh).has(address),
        s.next(i, fresh).block(address) == s.block(address),
{
    let op = s.ops[i];
    assert(s.op_ok(op));
    lemma_list_next(s, s.detached, address);
    if let Some(target) = op.pc.touches() {
        lemma_touchable(s, op.pc.entered()->0, target);
    }
}

/// Once the operations of the previous phase are gone, the detached blocks belong to the clearing
/// operation: steps of other operations leave them alone, and none of them has writes in flight.
pub proof fn law_owned_blocks_are_left_alone<T>(s: State<T>, i: int, fresh: usize, address: usize)
    requires
        s.inv(),
        0 <= i < s.ops.len(),
        s.vacant(fresh),
        s.stage is Owned,
        !s.ops[i].pc.locks(),
        s.detached.contains(address),
    ensures
        s.next(i, fresh).stage is Owned,
        s.next(i, fresh).detached == s.detached,
        s.next(i, fresh).has(address),
        s.next(i, fresh).block(address) == s.block(address),
        s.block(address).quiesced(),
{
    let op = s.ops[i];
    let t = s.next(i, fresh);
    lemma_owned_is_quiesced(s, address);
    assert(s.op_ok(op));
    if let Some(target) = op.pc.touches() {
        lemma_touchable(s, op.pc.entered()->0, target);
    }
}

/// The values of a block without writes in flight are its data.
pub proof fn lemma_data_is_all<T>(block: BlockView<T>)
    requires
        block.valid(),
        block.quiesced(),
    ensures
        in_block()(block) == block.data().to_multiset(),
{
    lemma_quiesced(block);
    assert forall|j: int| block.len() <= j < block.slots.len() implies #[trigger] block.slots[j] is None by {
        assert(block.write <= j);
    }
    lemma_prefix_is_all(block.slots, block.len());
    assert(block.data() =~= Seq::new(block.len(), |j: int| block.slots[j]->0));
}

proof fn lemma_prefix_is_all<T>(slots: Seq<Option<T>>, n: nat)
    requires
        n <= slots.len(),
        forall|j: int| 0 <= j < n ==> #[trigger] slots[j] is Some,
        forall|j: int| n <= j < slots.len() ==> #[trigger] slots[j] is None,
    ensures
        gather(slots, in_slot()) == Seq::new(n, |j: int| slots[j]->0).to_multiset(),
    decreases slots.len(),
{
    let values = Seq::new(n, |j: int| slots[j]->0);
    if slots.len() == 0 {
        assert(values =~= Seq::<T>::empty());
        values.to_multiset_ensures();
        assert(values.to_multiset() =~= Multiset::<T>::empty());
    } else {
        let rest = slots.drop_last();
        if n == slots.len() {
            let fewer = Seq::new((n - 1) as nat, |j: int| rest[j]->0);
            lemma_prefix_is_all(rest, (n - 1) as nat);
            assert(values =~= fewer.push(slots.last()->0));
            fewer.to_multiset_ensures();
            assert(gather(slots, in_slot()) =~= values.to_multiset());
        } else {
            lemma_prefix_is_all(rest, n);
            assert(values =~= Seq::new(n, |j: int| rest[j]->0));
            assert(gather(slots, in_slot()) =~= values.to_multiset());
        }
    }
}

/// The values in a heap whose blocks form a list are those of the blocks of the list.
proof fn lemma_heap_is_list<T>(heap: Seq<Option<BlockView<T>>>, list: Seq<usize>)
    requires
        list.no_duplicates(),
        forall|a: int|
            0 <= a < heap.len() ==> (#[trigger] heap[a] is Some <==> list.contains(a as usize)),
        forall|k: int| 0 <= k < list.len() ==> #[trigger] list[k] < heap.len(),
        heap.len() <= usize::MAX + 1,
        forall|k: int|
            0 <= k < list.len() ==> (#[trigger] heap[list[k] as int]->0).valid() && (
            heap[list[k] as int]->0).quiesced(),
    ensures
        gather(heap, in_cell()) == list.map_values(
            |address: usize| (heap[address as int]->0).data(),
        ).flatten_alt().to_multiset(),
    decreases list.len(),
{
    let data = list.map_values(|address: usize| (heap[address as int]->0).data());
    if list.len() == 0 {
        lemma_gather_nothing(heap, in_cell());
        data.flatten_alt().to_multiset_ensures();
        assert(data.flatten_alt().to_multiset() =~= Multiset::<T>::empty());
    } else {
        let address = list.last();
        let rest = list.drop_last();
        let smaller = heap.update(address as int, None);
        let fewer = rest.map_values(|address: usize| (smaller[address as int]->0).data());
        assert(list[list.len() - 1] == address);
        assert forall|a: int| 0 <= a < smaller.len() implies (#[trigger] smaller[a] is Some
            <==> rest.contains(a as usize)) by {
            if list.contains(a as usize) && a != address {
                let k = choose|k: int| 0 <= k < list.len() && list[k] == a as usize;
                assert(rest[k] == a as usize);
            }
            if rest.contains(a as usize) {
                let k = choose|k: int| 0 <= k < rest.len() && rest[k] == a as usize;
                assert(list[k] == a as usize);
            }
            assert(heap[a] is Some <==> list.contains(a as usize));
        }
        assert forall|k: int| 0 <= k < rest.len() implies smaller[#[trigger] rest[k] as int]
            == heap[list[k] as int] && rest[k] == list[k] by {
            assert(list[k] != list[list.len() - 1]);
        }
        assert forall|k: int| 0 <= k < rest.len() implies (
        #[trigger] smaller[rest[k] as int]->0).valid() && (smaller[rest[k] as int]->0).quiesced() by {
            assert((heap[list[k] as int]->0).valid());
        }
        lemma_heap_is_list(smaller, rest);
        assert(data.drop_last() =~= fewer);
        let block = heap[address as int]->0;
        assert((heap[list[list.len() - 1] as int]->0).valid());
        lemma_data_is_all(block);
        assert(list.contains(address));
        assert(heap[address as int] is Some);
        lemma_gather_update(heap, in_cell(), address as int, None);
        lemma_multiset_commutative(fewer.flatten_alt(), block.data());
        assert(gather(heap, in_cell()).add(Multiset::<T>::empty()) =~= gather(heap, in_cell()));
        assert(data.flatten_alt() == fewer.flatten_alt().add(block.data()));
    }
}

/// When no operation is in flight, the stripe is unlocked, has no block outside its list, no
/// write in flight, and all values that it holds are there to be read.
pub proof fn law_quiet<T>(s: State<T>)
    requires
        s.inv(),
        s.quiet(),
        s.heap.len() <= usize::MAX + 1,
    ensures
        !s.clearing,
        s.low == 0,
        s.high == 0,
        s.detached.len() == 0,
        forall|address: usize| s.has(address) <==> #[trigger] s.attached.contains(address),
        forall|address: usize| #[trigger] s.has(address) ==> s.block(address).quiesced(),
        s.total() == s.contents().flatten().to_multiset(),
{
    assert forall|i: int| 0 <= i < s.ops.len() implies in_phase(0)(#[trigger] s.ops[i]) == 0
        && in_phase(1)(s.ops[i]) == 0 && lockers()(s.ops[i]) == 0 && in_op()(s.ops[i])
        == Multiset::<T>::empty() by {
        assert(in_op()(s.ops[i]) =~= Multiset::<T>::empty());
    }
    lemma_tally_zero(s.ops, in_phase(0));
    lemma_tally_zero(s.ops, in_phase(1));
    lemma_tally_zero(s.ops, lockers());
    assert forall|address: usize| s.has(address) == #[trigger] s.attached.contains(address) by {
        if s.attached.contains(address) {
            lemma_list_next(s, s.attached, address);
        }
    }
    assert forall|address: usize| #[trigger] s.has(address) implies s.block(address).quiesced() by {
        let block = s.block(address);
        assert forall|index: int| 0 <= index < block.claimed() implies #[trigger] block.ready[index] by {
            if !block.ready[index] {
                assert(!s.block(address).ready[index]);
                assert(s.held(address, index));
            }
        }
    }
    assert forall|k: int| 0 <= k < s.attached.len() implies #[trigger] s.attached[k] < s.heap.len()
        && (s.heap[s.attached[k] as int]->0).valid() && (
    s.heap[s.attached[k] as int]->0).quiesced() by {
        assert(s.attached.contains(s.attached[k]));
        assert(s.has(s.attached[k]));
        assert(s.block(s.attached[k]).valid());
    }
    assert forall|a: int| 0 <= a < s.heap.len() implies (#[trigger] s.heap[a] is Some
        <==> s.attached.contains(a as usize)) by {
        assert(s.has(a as usize) == s.attached.contains(a as usize));
    }
    lemma_heap_is_list(s.heap, s.attached);
    lemma_gather_nothing(s.ops, in_op());
    assert(s.contents() =~= s.attached.map_values(
        |address: usize| (s.heap[address as int]->0).data(),
    ));
    s.contents().lemma_flatten_and_flatten_alt_are_equivalent();
    assert(s.total() =~= gather(s.heap, in_cell()));
}

/// At most one clearing operation is at work at a time.
pub proof fn law_one_clearer<T>(s: State<T>, i: int, j: int)
    requires
        s.inv(),
        0 <= i < s.ops.len(),
        0 <= j < s.ops.len(),
        s.ops[i].pc.locks(),
        s.ops[j].pc.locks(),
    ensures
        i == j,
{
    if i < j {
        lemma_tally_covers_two(s.ops, lockers(), i, j);
    } else if j < i {
        lemma_tally_covers_two(s.ops, lockers(), j, i);
    }
}

/// A finished operation holds no values: what it has pushed is in the blocks.
pub proof fn law_finished_holds_nothing<T>(s: State<T>, i: int)
    requires
        s.inv(),
        0 <= i < s.ops.len(),
        s.ops[i].pc is Done,
    ensures
        in_op()(s.ops[i]) == Multiset::<T>::empty(),
{
    assert(s.op_ok(s.ops[i]));
    assert(in_op()(s.ops[i]) =~= Multiset::<T>::empty());
}

impl<T> State<T> {
    /// Whether an operation that has entered the stripe in a phase may have hold of a block of a
    /// list, and gets from there to the next one of the list.
    pub open spec fn within_reach(self, phase: usize, list: Seq<usize>, n: int) -> bool {
        &&& self.touchable(phase, list[n])
        &&& self.block(list[n]).next == if n + 1 < list.len() {
            Some(list[n + 1])
        } else {
            None
        }
    }
}

/// Where a reading operation has got to that has found a list of blocks: it is at the block with
/// number `k`, and that block and those after it are still linked as they were.
pub open spec fn reading<T>(s: State<T>, i: int, list: Seq<usize>, k: int) -> bool {
    &&& s.inv()
    &&& 0 <= i < s.ops.len()
    &&& 0 <= k < list.len()
    &&& s.ops[i].task == Task::Read
    &&& s.ops[i].pc.touches() == Some(list[k])
    &&& forall|n: int|
        k <= n < list.len() ==> #[trigger] s.within_reach(s.ops[i].pc.entered()->0, list, n)
}

/// A reading operation starts with the newest block of the list, as it is at that moment.
pub proof fn law_read_starts_with_the_list<T>(s: State<T>, i: int, fresh: usize)
    requires
        s.inv(),
        0 <= i < s.ops.len(),
        s.vacant(fresh),
        s.ops[i].task == Task::Read,
        s.ops[i].pc is LoadTail,
    ensures
        s.attached.len() > 0 ==> reading(s.next(i, fresh), i, s.attached, 0)
            && s.next(i, fresh).ops[i].pc is Measure,
        s.attached.len() == 0 ==> s.next(i, fresh).ops[i].pc is Exit,
{
    let t = s.next(i, fresh);
    law_step_keeps_order(s, i, fresh);
    assert(s.op_ok(s.ops[i]));
    assert forall|n: int| 0 <= n < s.attached.len() implies #[trigger] t.within_reach(
        t.ops[i].pc.entered()->0,
        s.attached,
        n,
    ) by {
        assert(s.linked(s.attached, n));
        assert(t.attached.contains(s.attached[n]));
    }
}

/// The blocks that follow a block that an operation has hold of stay linked as long as the links of
/// single blocks do.
proof fn lemma_list_stays<T>(
    s: State<T>,
    t: State<T>,
    phase: usize,
    list: Seq<usize>,
    k: int,
    n: int,
)
    requires
        s.lists_ok(),
        t.lists_ok(),
        0 <= k <= n < list.len(),
        t.touchable(phase, list[k]),
        forall|m: int| k <= m < list.len() ==> #[trigger] s.within_reach(phase, list, m),
        forall|address: usize|
            s.has(address) && #[trigger] t.has(address) ==> t.block(address).next == s.block(
                address,
            ).next,
    ensures
        t.within_reach(phase, list, n),
    decreases n - k,
{
    if n > k {
        lemma_list_stays(s, t, phase, list, k, n - 1);
        lemma_touchable(t, phase, list[n - 1]);
    }
    assert(s.within_reach(phase, list, n));
    lemma_touchable(s, phase, list[n]);
    lemma_touchable(t, phase, list[n]);
}

/// A reading operation visits every block of the list that it has found, newest first, whatever the
/// other operations do in the meantime: it moves on by itself only, from a block that it has handed
/// out to the one that came before, and it exits after the last one.
pub proof fn law_read_visits_the_list<T>(
    s: State<T>,
    i: int,
    list: Seq<usize>,
    k: int,
    j: int,
    fresh: usize,
)
    requires
        reading(s, i, list, k),
        0 <= j < s.ops.len(),
        s.vacant(fresh),
    ensures
        j != i ==> s.next(j, fresh).ops[i] == s.ops[i],
        j != i || !(s.ops[i].pc is Advance) ==> reading(s.next(j, fresh), i, list, k),
        j == i && s.next(j, fresh).ops[i].pc is Advance ==> s.ops[i].pc is Deliver,
        j == i && s.ops[i].pc is Advance && k + 1 < list.len() ==> reading(
            s.next(j, fresh),
            i,
            list,
            k + 1,
        ) && s.next(j, fresh).ops[i].pc is Measure,
        j == i && s.ops[i].pc is Advance && k + 1 == list.len() ==> s.next(j, fresh).ops[i].pc is Exit,
{
    let t = s.next(j, fresh);
    let op = s.ops[i];
    let phase = op.pc.entered()->0;
    law_step_keeps_order(s, j, fresh);
    assert(s.op_ok(op));
    assert(t.op_ok(t.ops[i]));
    assert(s.within_reach(phase, list, k));
    assert(t.touchable(phase, list[k]));
    if t.ops[i].pc.entered() == op.pc.entered() {
        assert forall|address: usize| s.has(address) && #[trigger] t.has(address) implies t.block(
            address,
        ).next == s.block(address).next by {
            law_blocks_only_grow(s, j, fresh, address);
        }
        assert forall|n: int| k <= n < list.len() implies #[trigger] t.within_reach(
            phase,
            list,
            n,
        ) by {
            lemma_list_stays(s, t, phase, list, k, n);
        }
    }
}

/// A stripe is said to have values only when a block has data to be read.
pub proof fn law_not_empty_is_right<T>(s: State<T>, i: int, fresh: usize)
    requires
        s.inv(),
        0 <= i < s.ops.len(),
        !(s.ops[i].pc is Exit),
        s.next(i, fresh).ops[i].pc matches Pc::Exit { answer, .. } && answer == Some(false),
    ensures
        s.ops[i].pc.touches() matches Some(block) && s.has(block) && s.block(block).data().len() > 0,
{
    let op = s.ops[i];
    assert(s.op_ok(op));
    if let Some(block) = op.pc.touches() {
        lemma_touchable(s, op.pc.entered()->0, block);
    }
}

/// A stripe is said to have no values only when it has no block, when the one block that it has was
/// found to have no data, or while a write is in flight.
pub proof fn law_empty_is_right<T>(s: State<T>, i: int, fresh: usize)
    requires
        s.inv(),
        0 <= i < s.ops.len(),
        !(s.ops[i].pc is Exit),
        s.next(i, fresh).ops[i].pc matches Pc::Exit { answer, .. } && answer == Some(true),
    ensures
        match s.ops[i].pc {
            Pc::LoadTail { .. } => s.attached.len() == 0,
            Pc::ProbeLink { block, .. } => s.has(block) && s.block(block).next is None,
            Pc::ProbeNext { block, .. } => s.has(block) && !s.block(block).quiesced(),
            _ => false,
        },
{
    let op = s.ops[i];
    assert(s.op_ok(op));
    if let Some(block) = op.pc.touches() {
        lemma_touchable(s, op.pc.entered()->0, block);
        assert(s.block(block).valid());
        lemma_quiesced(s.block(block));
    }
}

/// Whether an operation cannot get on until another one has: it looks at a block with a write in
/// flight, or another operation holds the lock, or operations of the previous phase are left.
pub open spec fn must_wait<T>(s: State<T>, i: int) -> bool {
    match s.ops[i].pc {
        Pc::Measure { block, .. } => !s.block(block).quiesced(),
        Pc::Compare { block, .. } => !s.block(block).quiesced(),
        Pc::Lock => s.clearing,
        Pc::Drain { previous, .. } => s.count(previous as nat) != 0,
        _ => false,
    }
}

/// Whether an operation is in flight and can get on.
pub open spec fn can_go_on<T>(s: State<T>, j: int) -> bool {
    &&& 0 <= j < s.ops.len()
    &&& !(s.ops[j].pc is Idle)
    &&& !(s.ops[j].pc is Done)
    &&& !must_wait(s, j)
}

/// An operation that waits for a write waits for an operation that can get on.
proof fn lemma_reader_waits_for_writer<T>(s: State<T>, i: int)
    requires
        s.inv(),
        0 <= i < s.ops.len(),
        s.ops[i].pc is Measure || s.ops[i].pc is Compare,
        must_wait(s, i),
    ensures
        exists|j: int| #[trigger] can_go_on(s, j),
{
    let op = s.ops[i];
    assert(s.op_ok(op));
    let address = op.pc.touches()->0;
    lemma_touchable(s, op.pc.entered()->0, address);
    let index = choose|index: int|
        0 <= index < s.block(address).claimed() && !#[trigger] s.block(address).ready[index];
    assert(s.held(address, index));
    let j = choose|j: int|
        0 <= j < s.ops.len() && #[trigger] s.ops[j].pc.pending() == Some((address, index as usize));
    assert(can_go_on(s, j));
}

/// An operation that waits for those of the previous phase waits for one that can get on, at first
/// or second hand.
proof fn lemma_clearer_waits_for_phase<T>(s: State<T>, i: int)
    requires
        s.inv(),
        0 <= i < s.ops.len(),
        s.ops[i].pc is Drain,
        must_wait(s, i),
    ensures
        exists|j: int| #[trigger] can_go_on(s, j),
{
    if let Pc::Drain { previous, .. } = s.ops[i].pc {
        assert(s.op_ok(s.ops[i]));
        let j = lemma_tally_witness(s.ops, in_phase(previous as nat));
        if must_wait(s, j) {
            lemma_reader_waits_for_writer(s, j);
        } else {
            assert(can_go_on(s, j));
        }
    }
}

/// Operations do not wait for each other in a circle: as long as one is in flight, there is one
/// that can get on.
pub proof fn law_no_deadlock<T>(s: State<T>, i: int)
    requires
        s.inv(),
        0 <= i < s.ops.len(),
        !(s.ops[i].pc is Idle),
        !(s.ops[i].pc is Done),
    ensures
        exists|j: int| #[trigger] can_go_on(s, j),
{
    if !must_wait(s, i) {
        assert(can_go_on(s, i));
    } else {
        match s.ops[i].pc {
            Pc::Lock => {
                let j = lemma_tally_witness(s.ops, lockers());
                if must_wait(s, j) {
                    lemma_clearer_waits_for_phase(s, j);
                } else {
                    assert(can_go_on(s, j));
                }
            },
            Pc::Drain { .. } => lemma_clearer_waits_for_phase(s, i),
            _ => lemma_reader_waits_for_writer(s, i),
        }
    }
}

/// Growing further is growing.
pub proof fn lemma_grows_on<T>(a: BlockView<T>, b: BlockView<T>, c: BlockView<T>)
    requires
        a.grows_to(b),
        b.grows_to(c),
    ensures
        a.grows_to(c),
{
    assert forall|j: int| 0 <= j < a.slots.len() && #[trigger] a.slots[j] is Some implies c.slots[j]
        == a.slots[j] by {
        assert(b.slots[j] is Some);
    }
    assert forall|j: int| 0 <= j < a.ready.len() && #[trigger] a.ready[j] implies c.ready[j] by {
        assert(b.ready[j]);
    }
}

/// Where a clearing operation has got to that has detached a list of blocks: each of the blocks
/// has been taken or is still to be taken, in the order of the list, and has at most grown in the
/// meantime.
pub open spec fn taking<T>(s: State<T>, i: int, list: Seq<BlockView<T>>) -> bool {
    let taken = s.ops[i].taken;
    &&& s.inv()
    &&& 0 <= i < s.ops.len()
    &&& s.ops[i].pc is Flip || s.ops[i].pc is Drain || s.ops[i].pc is Collect
        || s.ops[i].pc is HandOver
    &&& taken.len() + s.detached.len() == list.len()
    &&& forall|k: int| 0 <= k < taken.len() ==> (#[trigger] list[k]).grows_to(taken[k])
    &&& forall|k: int|
        taken.len() <= k < list.len() ==> (#[trigger] list[k]).grows_to(
            s.block(s.detached[k - taken.len()]),
        )
}

/// Detaching the list is the start of taking its blocks.
pub proof fn law_swap_starts_taking<T>(s: State<T>, i: int, fresh: usize)
    requires
        s.inv(),
        0 <= i < s.ops.len(),
        s.vacant(fresh),
        s.ops[i].pc is Swap,
    ensures
        taking(
            s.next(i, fresh),
            i,
            s.attached.map_values(|address: usize| s.block(address)),
        ),
        s.next(i, fresh).attached.len() == 0,
{
    let t = s.next(i, fresh);
    law_step_keeps_order(s, i, fresh);
    assert(s.op_ok(s.ops[i]));
}

/// A clearing operation takes every block of the list that it has detached, newest first, with all
/// that the block held then, whatever the other operations do in the meantime.
pub proof fn law_clear_takes_the_list<T>(
    s: State<T>,
    i: int,
    list: Seq<BlockView<T>>,
    j: int,
    fresh: usize,
)
    requires
        taking(s, i, list),
        0 <= j < s.ops.len(),
        s.vacant(fresh),
    ensures
        taking(s.next(j, fresh), i, list),
        s.ops[i].pc is HandOver ==> s.ops[i].taken.len() == list.len(),
{
    let t = s.next(j, fresh);
    let op = s.ops[i];
    law_step_keeps_order(s, j, fresh);
    assert(s.op_ok(op));
    assert forall|k: int| 0 <= k < s.detached.len() implies s.has(#[trigger] s.detached[k]) by {
        assert(s.linked(s.detached, k));
    }
    if j != i {
        assert(t.ops[i] == op);
        if s.ops[j].pc.locks() {
            law_one_clearer(s, i, j);
        }
        assert(t.detached == s.detached) by {
            assert(s.op_ok(s.ops[j]));
        }
        assert forall|k: int| op.taken.len() <= k < list.len() implies (
        #[trigger] list[k]).grows_to(t.block(t.detached[k - op.taken.len()])) by {
            let address = s.detached[k - op.taken.len()];
            assert(t.linked(t.detached, k - op.taken.len()));
            law_blocks_only_grow(s, j, fresh, address);
            lemma_grows_on(list[k], s.block(address), t.block(address));
        }
    } else if op.pc is Collect && s.detached.len() > 0 {
        let taken = t.ops[i].taken;
        assert(taken =~= op.taken.push(s.block(s.detached[0])));
        assert forall|k: int| 0 <= k < taken.len() implies (#[trigger] list[k]).grows_to(
            taken[k],
        ) by {
            if k == op.taken.len() {
                assert(list[k].grows_to(s.block(s.detached[k - op.taken.len()])));
            }
        }
        assert forall|k: int| taken.len() <= k < list.len() implies (#[trigger] list[k]).grows_to(
            t.block(t.detached[k - taken.len()]),
        ) by {
            let address = s.detached[k - op.taken.len()];
            assert(t.detached[k - taken.len()] == address);
            assert(address != s.detached[0]);
            assert(t.block(address) == s.block(address));
        }
    }
}

} // verus!
