//! What an operation does when no other operation takes a step in between.
use crate::block::{lemma_leading_run_is, lemma_quiesced, BlockView, BLOCK_SIZE};
use crate::model::{OpView, Pc, State, Task};
use crate::protocol::{in_phase, lemma_list_next, lemma_touchable, lockers};
use crate::steps::law_step_keeps_order;
use crate::sums::lemma_tally_zero;
use vstd::prelude::*;

verus! {

/// An upper bound on the number of steps that a push has left when it is left alone.
pub open spec fn push_left<T>(s: State<T>, i: int) -> nat {
    match s.ops[i].pc {
        Pc::Grow { block, .. } => if s.tail == Some(block) {
            6
        } else {
            17
        },
        Pc::Extend { block, .. } => if s.tail == Some(block) {
            5
        } else {
            16
        },
        Pc::Claim { block, installed, .. } => if s.block(block).write < BLOCK_SIZE {
            4
        } else if installed {
            15
        } else if s.tail == Some(block) {
            7
        } else {
            18
        },
        Pc::Arrive { phase } => if phase == s.phase {
            11
        } else {
            14
        },
        Pc::Undo { .. } => 13,
        Pc::Guess => 12,
        Pc::LoadTail { .. } => 10,
        Pc::Allocate { .. } => 9,
        Pc::Install { .. } => 8,
        Pc::Fill { .. } => 3,
        Pc::Publish { .. } => 2,
        Pc::Exit { .. } => 1,
        _ => 0,
    }
}

/// A push never waits for another operation: wherever the other operations have stopped, a push
/// that is left alone gets closer to its end with every step.
pub proof fn law_push_alone_finishes<T>(s: State<T>, i: int, fresh: usize)
    requires
        s.inv(),
        0 <= i < s.ops.len(),
        s.ops[i].task == Task::Push,
        !(s.ops[i].pc is Idle),
        !(s.ops[i].pc is Done),
        s.vacant(fresh),
    ensures
        s.next(i, fresh).ops[i].task == Task::Push,
        push_left(s.next(i, fresh), i) < push_left(s, i),
        push_left(s.next(i, fresh), i) == 0 <==> s.next(i, fresh).ops[i].pc is Done,
{
    let op = s.ops[i];
    assert(s.op_ok(op));
    if let Some(address) = op.pc.touches() {
        lemma_touchable(s, op.pc.entered()->0, address);
    }
    if let Some(tail) = s.tail {
        assert(s.attached[0] == tail);
        lemma_list_next(s, s.attached, tail);
    }
    assert(s.phase < 2);
}

/// Whether all operations but one are idle.
pub open spec fn others_idle<T>(s: State<T>, i: int) -> bool {
    forall|j: int| 0 <= j < s.ops.len() && j != i ==> #[trigger] s.ops[j] == OpView::<T>::idle()
}

/// Whether the next value goes into a new block.
pub open spec fn needs_block<T>(contents: Seq<Seq<T>>) -> bool {
    contents.len() == 0 || contents[0].len() == BLOCK_SIZE
}

/// The contents with a newest block that is not full.
pub open spec fn with_room<T>(contents: Seq<Seq<T>>) -> Seq<Seq<T>> {
    if needs_block(contents) {
        seq![Seq::<T>::empty()] + contents
    } else {
        contents
    }
}

/// The contents after a value has been pushed: the value goes to the end of the newest block, or
/// into a new block if there is none or it is full.
pub open spec fn with_pushed<T>(contents: Seq<Seq<T>>, value: T) -> Seq<Seq<T>> {
    with_room(contents).update(0, with_room(contents)[0].push(value))
}

/// Where a push has got to that was started when no other operation was in flight.
pub open spec fn push_alone<T>(s: State<T>, i: int, contents: Seq<Seq<T>>, value: T) -> bool {
    &&& s.inv()
    &&& 0 <= i < s.ops.len()
    &&& others_idle(s, i)
    &&& s.ops[i].task == Task::Push
    &&& s.ops[i].pc.carries() ==> s.ops[i].value == Some(value)
    &&& s.contents() == contents || s.contents() == with_room(contents) || s.contents()
        == with_pushed(contents, value)
    &&& match s.ops[i].pc {
        Pc::Idle => false,
        Pc::Grow { block, .. } => s.contents() == contents && needs_block(contents) && s.tail
            == Some(block),
        Pc::Extend { block, .. } => s.contents() == contents && needs_block(contents) && s.tail
            == Some(block),
        Pc::Claim { block, .. } => s.tail == Some(block) && (s.contents() == contents
            || s.contents() == with_room(contents)),
        Pc::Fill { block, index, .. } => s.tail == Some(block) && s.contents() == with_room(
            contents,
        ) && index == s.contents()[0].len() && s.block(block).write == index + 1,
        Pc::Publish { block, index, .. } => s.tail == Some(block) && s.contents() == with_room(
            contents,
        ) && index == s.contents()[0].len() && s.block(block).write == index + 1 && s.block(
            block,
        ).slots[index as int] == Some(value),
        Pc::Exit { .. } => s.contents() == with_pushed(contents, value),
        Pc::Done { .. } => s.contents() == with_pushed(contents, value),
        _ => s.contents() == contents,
    }
}

/// A block has no writes in flight if the only operation that is not idle has none.
proof fn lemma_alone_quiesced<T>(s: State<T>, i: int, address: usize)
    requires
        s.inv(),
        0 <= i < s.ops.len(),
        others_idle(s, i),
        s.has(address),
        s.ops[i].pc.pending() matches Some(slot) ==> slot.0 != address,
    ensures
        s.block(address).quiesced(),
{
    let block = s.block(address);
    assert forall|index: int| 0 <= index < block.claimed() implies #[trigger] block.ready[index] by {
        if !block.ready[index] {
            assert(!s.block(address).ready[index]);
            assert(s.held(address, index));
            let j = choose|j: int|
                0 <= j < s.ops.len() && #[trigger] s.ops[j].pc.pending() == Some(
                    (address, index as usize),
                );
            assert(j == i);
        }
    }
}

/// The contents are those of the attached blocks.
proof fn lemma_contents_kept<T>(s: State<T>, t: State<T>)
    requires
        t.attached == s.attached,
        forall|k: int|
            0 <= k < s.attached.len() ==> t.block(#[trigger] s.attached[k]).data() == s.block(
                s.attached[k],
            ).data(),
    ensures
        t.contents() == s.contents(),
{
    assert(t.contents() =~= s.contents());
}

/// A new block has no data.
proof fn lemma_fresh_is_empty<T>(next: Option<usize>)
    ensures
        BlockView::<T>::fresh(next).data() == Seq::<T>::empty(),
{
    lemma_leading_run_is(BlockView::<T>::fresh(next).ready, 0);
    assert(BlockView::<T>::fresh(next).data() =~= Seq::<T>::empty());
}

/// A push that is left alone pushes its value.
pub proof fn lemma_push_alone<T>(
    s: State<T>,
    i: int,
    fresh: usize,
    contents: Seq<Seq<T>>,
    value: T,
)
    requires
        push_alone(s, i, contents, value),
        s.vacant(fresh),
        !(s.ops[i].pc is Done),
    ensures
        push_alone(s.next(i, fresh), i, contents, value),
        s.next(i, fresh).phase == s.phase,
{
    let op = s.ops[i];
    let t = s.next(i, fresh);
    law_step_keeps_order(s, i, fresh);
    assert(s.op_ok(op));
    assert(forall|j: int| 0 <= j < s.ops.len() && j != i ==> #[trigger] t.ops[j] == s.ops[j]);
    assert forall|k: int| 0 <= k < s.attached.len() implies s.has(#[trigger] s.attached[k]) by {
        assert(s.linked(s.attached, k));
    }
    if let Some(tail) = s.tail {
        assert(s.attached[0] == tail);
        assert(s.has(tail));
        assert(s.block(tail).valid());
        lemma_quiesced(s.block(tail));
        assert(s.contents()[0] == s.block(tail).data());
    }
    match op.pc {
        Pc::Allocate { .. } => {
            lemma_contents_kept(s, t);
        },
        Pc::Grow { .. } => {
            lemma_contents_kept(s, t);
        },
        Pc::Install { block, .. } => {
            lemma_fresh_is_empty::<T>(None);
            if s.tail is None {
                assert(t.contents() =~= with_room(contents));
            } else {
                assert forall|k: int| 0 <= k < s.attached.len() implies #[trigger] s.attached[k]
                    != block by {
                    assert(s.attached.contains(s.attached[k]));
                }
                lemma_contents_kept(s, t);
            }
        },
        Pc::Extend { block, fresh: own, .. } => {
            lemma_fresh_is_empty::<T>(Some(block));
            assert(t.contents() =~= seq![Seq::<T>::empty()] + s.contents());
        },
        Pc::Claim { block, .. } => {
            lemma_alone_quiesced(s, i, block);
            assert(t.block(block).data() =~= s.block(block).data());
            lemma_contents_kept(s, t);
        },
        Pc::Fill { block, index, .. } => {
            assert(t.block(block).data() =~= s.block(block).data());
            lemma_contents_kept(s, t);
        },
        Pc::Publish { block, index, .. } => {
            let before = s.block(block);
            let after = t.block(block);
            lemma_alone_quiesced(t, i, block);
            assert(t.has(block));
            assert(after.valid());
            lemma_quiesced(after);
            assert(after.data() =~= before.data().push(value));
            assert forall|k: int| 0 < k < s.attached.len() implies #[trigger] s.attached[k]
                != block by {
                assert(s.attached[0] == block);
            }
            assert(t.contents() =~= with_pushed(contents, value));
        },
        _ => {
            lemma_contents_kept(s, t);
        },
    }
}

/// The data of the blocks of a list, in the order of the list.
pub open spec fn listed<T>(s: State<T>, list: Seq<usize>) -> Seq<Seq<T>> {
    list.map_values(|address: usize| s.block(address).data())
}

/// The data of blocks.
pub open spec fn data_of<T>(blocks: Seq<BlockView<T>>) -> Seq<Seq<T>> {
    blocks.map_values(|block: BlockView<T>| block.data())
}

/// The number of steps that a clearing operation has left when it is left alone.
pub open spec fn clear_left<T>(s: State<T>, i: int) -> nat {
    match s.ops[i].pc {
        Pc::Lock => s.attached.len() + 7,
        Pc::Swap => s.attached.len() + 6,
        Pc::Flip { .. } => s.detached.len() + 5,
        Pc::Drain { .. } => s.detached.len() + 4,
        Pc::Collect { .. } => s.detached.len() + 3,
        Pc::HandOver => 2,
        Pc::Unlock => 1,
        _ => 0,
    }
}

/// Where a clearing operation has got to that was started when no other operation was in flight,
/// and in the given phase.
pub open spec fn clear_alone<T>(s: State<T>, i: int, contents: Seq<Seq<T>>, phase: nat) -> bool {
    &&& s.inv()
    &&& 0 <= i < s.ops.len()
    &&& others_idle(s, i)
    &&& s.ops[i].task == Task::Clear
    &&& s.phase == match s.ops[i].pc {
        Pc::Lock => phase as int,
        Pc::Swap => phase as int,
        Pc::Flip { .. } => phase as int,
        _ => if contents.len() == 0 {
            phase as int
        } else {
            1 - phase
        },
    }
    &&& match s.ops[i].pc {
        Pc::Lock => s.contents() == contents,
        Pc::Swap => s.contents() == contents,
        Pc::Flip { .. } => s.attached.len() == 0 && listed(s, s.detached) == contents,
        Pc::Drain { .. } => s.attached.len() == 0 && listed(s, s.detached) == contents,
        Pc::Collect { .. } => s.attached.len() == 0 && data_of(s.ops[i].taken) + listed(
            s,
            s.detached,
        ) == contents,
        Pc::HandOver => s.attached.len() == 0 && data_of(s.ops[i].taken) == contents,
        Pc::Unlock => s.attached.len() == 0,
        Pc::Done { .. } => s.attached.len() == 0,
        _ => false,
    }
}

/// A clearing operation that is left alone takes all blocks, newest first, and never waits.
pub proof fn lemma_clear_alone<T>(
    s: State<T>,
    i: int,
    fresh: usize,
    contents: Seq<Seq<T>>,
    phase: nat,
)
    requires
        clear_alone(s, i, contents, phase),
        s.vacant(fresh),
        !(s.ops[i].pc is Done),
        !(s.ops[i].pc is HandOver),
    ensures
        clear_alone(s.next(i, fresh), i, contents, phase),
        clear_left(s.next(i, fresh), i) < clear_left(s, i),
        s.ops[i].pc is Lock ==> !s.clearing,
        s.ops[i].pc matches Pc::Drain { previous, .. } ==> s.count(previous as nat) == 0,
{
    let op = s.ops[i];
    let t = s.next(i, fresh);
    law_step_keeps_order(s, i, fresh);
    assert(s.op_ok(op));
    assert(forall|j: int| 0 <= j < s.ops.len() && j != i ==> #[trigger] t.ops[j] == s.ops[j]);
    assert forall|j: int| 0 <= j < s.ops.len() implies in_phase(0)(#[trigger] s.ops[j]) == 0
        && in_phase(1)(s.ops[j]) == 0 && (!op.pc.locks() ==> lockers()(s.ops[j]) == 0) by {}
    lemma_tally_zero(s.ops, in_phase(0));
    lemma_tally_zero(s.ops, in_phase(1));
    if op.pc is Lock {
        lemma_tally_zero(s.ops, lockers());
        assert(t.contents() =~= s.contents());
    }
    match op.pc {
        Pc::Swap => {
            if s.tail is None {
                assert(op.taken.len() == 0);
                assert(data_of(op.taken) =~= s.contents());
            } else {
                assert(listed(t, t.detached) =~= s.contents());
            }
        },
        Pc::Flip { .. } => {
            assert(listed(t, t.detached) =~= listed(s, s.detached));
        },
        Pc::Drain { .. } => {
            assert(op.taken.len() == 0);
            assert(data_of(t.ops[i].taken) + listed(t, t.detached) =~= listed(s, s.detached));
        },
        Pc::Collect { head } => {
            if head is None {
                assert(data_of(t.ops[i].taken) =~= data_of(op.taken) + listed(s, s.detached));
            } else {
                let address = s.detached[0];
                assert(s.linked(s.detached, 0));
                assert forall|k: int| 0 < k < s.detached.len() implies #[trigger] s.detached[k]
                    != address && s.has(s.detached[k]) by {
                    assert(s.linked(s.detached, k));
                }
                assert forall|k: int| 0 <= k < t.detached.len() implies #[trigger] listed(
                    t,
                    t.detached,
                )[k] == listed(s, s.detached)[k + 1] by {
                    let next = s.detached[k + 1];
                    assert(t.detached[k] == next);
                    assert(next != address && s.has(next));
                    assert(t.block(next) == s.block(next));
                }
                assert(data_of(t.ops[i].taken) =~= data_of(op.taken).push(
                    s.block(address).data(),
                ));
                assert(data_of(t.ops[i].taken) + listed(t, t.detached) =~= data_of(op.taken)
                    + listed(s, s.detached));
            }
        },
        _ => {},
    }
}

} // verus!
