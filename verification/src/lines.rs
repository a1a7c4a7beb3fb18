//! The order in which values have got their places.
//!
//! A value gets its place when its push claims a slot, although it is written and published only
//! later.  A list of blocks is a line, from the first slot of its oldest block to the last claimed
//! slot of its newest one, and every claim puts a value at the end of a line.
use crate::block::{lemma_quiesced, BlockView, BLOCK_SIZE};
use crate::laws::{law_blocks_only_grow, law_one_clearer};
use crate::model::{Pc, State};
use crate::protocol::{lemma_list_next, lemma_touchable, lockers};
use crate::steps::{law_step_keeps_order, lemma_owned_is_quiesced};
use crate::sums::lemma_tally_covers;
use vstd::prelude::*;

verus! {

/// The operation that is still to publish a slot.
pub open spec fn writer<T>(s: State<T>, address: usize, index: int) -> int {
    choose|i: int|
        0 <= i < s.ops.len() && #[trigger] s.ops[i].pc.pending() == Some((address, index as usize))
}

/// The value that a claimed slot holds, or that will be written into it.
pub open spec fn promised<T>(s: State<T>, address: usize, index: int) -> T {
    match s.block(address).slots[index] {
        Some(value) => value,
        None => s.ops[writer(s, address, index)].value->0,
    }
}

/// The values of the claimed slots of a block, in slot order.
pub open spec fn line_of<T>(s: State<T>, address: usize) -> Seq<T> {
    Seq::new(s.block(address).claimed(), |index: int| promised(s, address, index))
}

/// The values of the claimed slots of a list of blocks, oldest block first.
pub open spec fn line<T>(s: State<T>, list: Seq<usize>) -> Seq<T>
    decreases list.len(),
{
    if list.len() == 0 {
        Seq::empty()
    } else {
        line(s, list.drop_first()) + line_of(s, list[0])
    }
}

/// The values of blocks that have been taken, newest block first, in the order of the line.
pub open spec fn line_taken<T>(taken: Seq<BlockView<T>>) -> Seq<T>
    decreases taken.len(),
{
    if taken.len() == 0 {
        Seq::empty()
    } else {
        taken.last().data() + line_taken(taken.drop_last())
    }
}

/// Whether the next step of an operation puts its value at the end of a line.
pub open spec fn claims<T>(s: State<T>, i: int) -> bool {
    s.ops[i].pc matches Pc::Claim { block, .. } && s.block(block).write < BLOCK_SIZE
}

/// A slot that has not been written gets the value of the operation that has claimed it.
proof fn lemma_promised<T>(s: State<T>, address: usize, index: int, i: int)
    requires
        s.inv(),
        0 <= i < s.ops.len(),
        s.ops[i].pc.pending() == Some((address, index as usize)),
        s.block(address).slots[index] is None,
    ensures
        promised(s, address, index) == s.ops[i].value->0,
{
    let w = writer(s, address, index);
    assert(s.ops[w].pc.pending() is Some);
    assert(s.ops[i].pc.pending() is Some);
    assert(w == i);
}

/// A step leaves the values of the claimed slots of a block as they are, whether they have been
/// written or not.
proof fn lemma_promised_stays<T>(s: State<T>, i: int, fresh: usize, address: usize, index: int)
    requires
        s.inv(),
        s.next(i, fresh).inv(),
        0 <= i < s.ops.len(),
        s.vacant(fresh),
        s.has(address),
        s.next(i, fresh).has(address),
        0 <= index < s.block(address).claimed(),
    ensures
        promised(s.next(i, fresh), address, index) == promised(s, address, index),
{
    let t = s.next(i, fresh);
    let before = s.block(address);
    law_blocks_only_grow(s, i, fresh, address);
    assert(before.valid());
    if before.slots[index] is None {
        assert(!s.block(address).ready[index]);
        assert(s.held(address, index));
        let w = choose|w: int|
            0 <= w < s.ops.len() && #[trigger] s.ops[w].pc.pending() == Some(
                (address, index as usize),
            );
        lemma_promised(s, address, index, w);
        assert(s.op_ok(s.ops[w]));
        if w == i {
            lemma_touchable(s, s.ops[i].pc.entered()->0, address);
            assert(t.block(address) == before.with_value(index, s.ops[i].value->0));
        } else {
            assert(t.ops[w] == s.ops[w]);
            assert(t.op_ok(t.ops[w]));
            lemma_promised(t, address, index, w);
        }
    }
}

/// A step changes the write index of a block only by asking it for a slot.
pub proof fn lemma_write_stays<T>(s: State<T>, i: int, fresh: usize, address: usize)
    requires
        s.inv(),
        0 <= i < s.ops.len(),
        s.vacant(fresh),
        s.has(address),
        s.next(i, fresh).has(address),
    ensures
        s.next(i, fresh).block(address).write == s.block(address).write + if s.ops[i].pc matches Pc::Claim {
            block,
            ..
        } && block == address {
            1int
        } else {
            0
        },
{
    let op = s.ops[i];
    assert(s.op_ok(op));
    if let Some(target) = op.pc.touches() {
        lemma_touchable(s, op.pc.entered()->0, target);
    }
    if let Pc::Collect { head: Some(block) } = op.pc {
        assert(s.detached.contains(block));
        lemma_list_next(s, s.detached, block);
    }
}

/// A step leaves the line of a block as it is, or puts the value of the operation at its end.
pub proof fn lemma_line_of<T>(s: State<T>, i: int, fresh: usize, address: usize)
    requires
        s.inv(),
        s.next(i, fresh).inv(),
        0 <= i < s.ops.len(),
        s.vacant(fresh),
        s.has(address),
        s.next(i, fresh).has(address),
    ensures
        claims(s, i) && s.ops[i].pc.touches() == Some(address) ==> line_of(
            s.next(i, fresh),
            address,
        ) == line_of(s, address).push(s.ops[i].value->0),
        !(claims(s, i) && s.ops[i].pc.touches() == Some(address)) ==> line_of(
            s.next(i, fresh),
            address,
        ) == line_of(s, address),
{
    let t = s.next(i, fresh);
    let op = s.ops[i];
    lemma_write_stays(s, i, fresh, address);
    assert forall|index: int| 0 <= index < s.block(address).claimed() implies #[trigger] promised(
        t,
        address,
        index,
    ) == promised(s, address, index) by {
        lemma_promised_stays(s, i, fresh, address, index);
    }
    if claims(s, i) && op.pc.touches() == Some(address) {
        let index = s.block(address).write as int;
        assert(s.block(address).valid());
        assert(s.block(address).slots[index] is None);
        assert(t.ops[i].pc.pending() == Some((address, index as usize)));
        assert(t.ops[i].value == op.value);
        assert(t.op_ok(t.ops[i]));
        lemma_promised(t, address, index, i);
        assert(line_of(t, address) =~= line_of(s, address).push(op.value->0));
    } else {
        assert(line_of(t, address) =~= line_of(s, address));
    }
}

/// The line of a list is that of its blocks.
proof fn lemma_same_line<T>(s: State<T>, t: State<T>, list: Seq<usize>)
    requires
        forall|k: int| 0 <= k < list.len() ==> line_of(t, #[trigger] list[k]) == line_of(s, list[k]),
    ensures
        line(t, list) == line(s, list),
    decreases list.len(),
{
    if list.len() > 0 {
        let rest = list.drop_first();
        assert forall|k: int| 0 <= k < rest.len() implies line_of(t, #[trigger] rest[k]) == line_of(
            s,
            rest[k],
        ) by {
            assert(rest[k] == list[k + 1]);
        }
        lemma_same_line(s, t, rest);
    }
}

/// A step leaves the line of a list whose blocks stay allocated as it is, or puts the value of the
/// operation at its end.
proof fn lemma_line<T>(s: State<T>, i: int, fresh: usize, list: Seq<usize>)
    requires
        s.inv(),
        s.next(i, fresh).inv(),
        0 <= i < s.ops.len(),
        s.vacant(fresh),
        s.is_list(list),
        forall|k: int| 0 <= k < list.len() ==> s.next(i, fresh).has(#[trigger] list[k]),
    ensures
        claims(s, i) && list.contains(s.ops[i].pc.touches()->0) ==> line(s.next(i, fresh), list)
            == line(s, list).push(s.ops[i].value->0),
        !(claims(s, i) && list.contains(s.ops[i].pc.touches()->0)) ==> line(
            s.next(i, fresh),
            list,
        ) == line(s, list),
{
    let t = s.next(i, fresh);
    let op = s.ops[i];
    if claims(s, i) && list.contains(op.pc.touches()->0) {
        let address = op.pc.touches()->0;
        let k = choose|k: int| 0 <= k < list.len() && list[k] == address;
        assert(s.linked(list, k));
        assert(k == 0);
        let rest = list.drop_first();
        lemma_line_of(s, i, fresh, address);
        assert forall|n: int| 0 <= n < rest.len() implies line_of(t, #[trigger] rest[n]) == line_of(
            s,
            rest[n],
        ) by {
            assert(rest[n] == list[n + 1]);
            assert(s.linked(list, n + 1));
            assert(list[n + 1] != list[0]);
            lemma_line_of(s, i, fresh, list[n + 1]);
        }
        lemma_same_line(s, t, rest);
        assert(line(t, list) =~= line(s, list).push(op.value->0));
    } else {
        assert forall|n: int| 0 <= n < list.len() implies line_of(t, #[trigger] list[n]) == line_of(
            s,
            list[n],
        ) by {
            assert(s.linked(list, n));
            assert(list.contains(list[n]));
            lemma_line_of(s, i, fresh, list[n]);
        }
        lemma_same_line(s, t, list);
    }
}

/// The line of a block without writes in flight is its data.
pub proof fn lemma_quiesced_line<T>(s: State<T>, address: usize)
    requires
        s.block(address).valid(),
        s.block(address).quiesced(),
    ensures
        line_of(s, address) == s.block(address).data(),
{
    lemma_quiesced(s.block(address));
    assert(line_of(s, address) =~= s.block(address).data());
}

/// What happens to operations that have not claimed a slot leaves the line of a block as it is.
pub proof fn lemma_other_event_on_block<T>(s: State<T>, t: State<T>, address: usize)
    requires
        s.inv(),
        t.inv(),
        t.heap == s.heap,
        s.has(address),
        forall|i: int|
            0 <= i < s.ops.len() && (#[trigger] s.ops[i].pc.pending()) is Some ==> i < t.ops.len()
                && t.ops[i] == s.ops[i],
    ensures
        line_of(t, address) == line_of(s, address),
{
    assert(s.block(address).valid());
    assert forall|index: int| 0 <= index < s.block(address).claimed() implies #[trigger] promised(
        t,
        address,
        index,
    ) == promised(s, address, index) by {
        if s.block(address).slots[index] is None {
            assert(!s.block(address).ready[index]);
            assert(s.held(address, index));
            let w = choose|w: int|
                0 <= w < s.ops.len() && #[trigger] s.ops[w].pc.pending() == Some(
                    (address, index as usize),
                );
            lemma_promised(s, address, index, w);
            lemma_promised(t, address, index, w);
        }
    }
    assert(line_of(t, address) =~= line_of(s, address));
}

/// What happens to operations that have not claimed a slot leaves the lines as they are.
pub proof fn lemma_other_event<T>(s: State<T>, t: State<T>, list: Seq<usize>)
    requires
        s.inv(),
        t.inv(),
        t.heap == s.heap,
        s.is_list(list),
        forall|i: int|
            0 <= i < s.ops.len() && (#[trigger] s.ops[i].pc.pending()) is Some ==> i < t.ops.len()
                && t.ops[i] == s.ops[i],
    ensures
        line(t, list) == line(s, list),
{
    assert forall|k: int| 0 <= k < list.len() implies line_of(t, #[trigger] list[k]) == line_of(
        s,
        list[k],
    ) by {
        assert(s.linked(list, k));
        lemma_other_event_on_block(s, t, list[k]);
    }
    lemma_same_line(s, t, list);
}

/// The line of a list without writes in flight are the data of its blocks, oldest block first.
pub proof fn lemma_quiet_line<T>(s: State<T>, list: Seq<usize>)
    requires
        forall|k: int|
            0 <= k < list.len() ==> s.block(#[trigger] list[k]).valid() && s.block(
                list[k],
            ).quiesced(),
    ensures
        line(s, list) == list.map_values(
            |address: usize| s.block(address).data(),
        ).reverse().flatten(),
    decreases list.len(),
{
    let data = list.map_values(|address: usize| s.block(address).data());
    if list.len() == 0 {
        assert(data.reverse().flatten() =~= Seq::<T>::empty());
    } else {
        let rest = list.drop_first();
        let fewer = rest.map_values(|address: usize| s.block(address).data());
        assert forall|k: int| 0 <= k < rest.len() implies s.block(#[trigger] rest[k]).valid()
            && s.block(rest[k]).quiesced() by {
            assert(rest[k] == list[k + 1]);
        }
        lemma_quiet_line(s, rest);
        assert(s.block(list[0]).valid());
        lemma_quiesced_line(s, list[0]);
        assert(data.reverse().drop_last() =~= fewer.reverse());
        assert(data.reverse().last() == data[0]);
        data.reverse().lemma_flatten_and_flatten_alt_are_equivalent();
        fewer.reverse().lemma_flatten_and_flatten_alt_are_equivalent();
    }
}

/// What the next step of an operation does to the lines of the attached and of the detached blocks:
/// it puts a value at the end of one, or detaches a line, or takes the newest block of the detached
/// line, or leaves both lines as they are.
#[verifier::spinoff_prover]
#[verifier::rlimit(40)]
pub proof fn law_step_on_lines<T>(s: State<T>, i: int, fresh: usize)
    requires
        s.inv(),
        0 <= i < s.ops.len(),
        s.vacant(fresh),
    ensures
        ({
            let t = s.next(i, fresh);
            let op = s.ops[i];
            if claims(s, i) {
                if s.attached.contains(op.pc.touches()->0) {
                    &&& line(t, t.attached) == line(s, s.attached).push(op.value->0)
                    &&& line(t, t.detached) == line(s, s.detached)
                } else {
                    &&& line(t, t.attached) == line(s, s.attached)
                    &&& line(t, t.detached) == line(s, s.detached).push(op.value->0)
                }
            } else if op.pc is Swap && s.tail is Some {
                &&& line(t, t.attached) == Seq::<T>::empty()
                &&& line(t, t.detached) == line(s, s.attached)
            } else if op.pc matches Pc::Collect { head } && head is Some {
                &&& line(t, t.attached) == line(s, s.attached)
                &&& line(s, s.detached) == line(t, t.detached) + s.block(s.detached[0]).data()
            } else {
                &&& line(t, t.attached) == line(s, s.attached)
                &&& line(t, t.detached) == line(s, s.detached)
            }
        }),
{
    let t = s.next(i, fresh);
    let op = s.ops[i];
    law_step_keeps_order(s, i, fresh);
    assert(s.op_ok(op));
    match op.pc {
        Pc::Swap => {
            assert forall|k: int| 0 <= k < s.attached.len() implies line_of(
                t,
                #[trigger] s.attached[k],
            ) == line_of(s, s.attached[k]) by {
                assert(s.linked(s.attached, k));
                lemma_line_of(s, i, fresh, s.attached[k]);
            }
            lemma_same_line(s, t, s.attached);
            lemma_same_line(s, t, s.detached);
        },
        Pc::Collect { head: Some(block) } => {
            let rest = s.detached.drop_first();
            assert(s.detached.contains(s.detached[0]));
            lemma_owned_is_quiesced(s, s.detached[0]);
            lemma_quiesced_line(s, s.detached[0]);
            assert forall|k: int| 0 <= k < rest.len() implies line_of(t, #[trigger] rest[k])
                == line_of(s, rest[k]) by {
                assert(rest[k] == s.detached[k + 1]);
                assert(s.linked(s.detached, k + 1));
                assert(s.detached[k + 1] != s.detached[0]);
                lemma_line_of(s, i, fresh, rest[k]);
            }
            lemma_same_line(s, t, rest);
            assert forall|k: int| 0 <= k < s.attached.len() implies t.has(
                #[trigger] s.attached[k],
            ) by {
                assert(t.linked(t.attached, k));
            }
            lemma_line(s, i, fresh, s.attached);
        },
        _ => {
            assert(t.detached == s.detached);
            assert forall|k: int| 0 <= k < s.detached.len() implies t.has(
                #[trigger] s.detached[k],
            ) by {
                assert(t.linked(t.detached, k));
            }
            lemma_line(s, i, fresh, s.detached);
            assert forall|k: int| 0 <= k < s.attached.len() implies t.has(
                #[trigger] s.attached[k],
            ) by {
                if t.attached == s.attached {
                    assert(t.linked(t.attached, k));
                } else {
                    assert(t.attached[k + 1] == s.attached[k]);
                    assert(t.linked(t.attached, k + 1));
                }
            }
            lemma_line(s, i, fresh, s.attached);
            if t.attached != s.attached {
                assert(t.attached.drop_first() =~= s.attached);
                assert(line_of(t, t.attached[0]) =~= Seq::<T>::empty());
                assert(line(t, t.attached) =~= line(t, s.attached));
            }
            if claims(s, i) {
                lemma_touchable(s, op.pc.entered()->0, op.pc.touches()->0);
            }
        },
    }
}

/// The values of a list that a clearing operation has detached, whether their blocks have been taken
/// yet or not, in the order of the line.
pub open spec fn clear_line<T>(s: State<T>, i: int) -> Seq<T> {
    line(s, s.detached) + line_taken(s.ops[i].taken)
}

/// What the next step of an operation does to the line of a clearing operation: it puts a value at
/// its end, or detaches a line, or leaves it as it is.
#[verifier::spinoff_prover]
#[verifier::rlimit(60)]
pub proof fn law_step_on_clear_line<T>(s: State<T>, i: int, j: int, fresh: usize)
    requires
        s.inv(),
        0 <= i < s.ops.len(),
        0 <= j < s.ops.len(),
        s.vacant(fresh),
        s.next(i, fresh).ops[j].pc.locks(),
    ensures
        ({
            let t = s.next(i, fresh);
            let op = s.ops[i];
            if claims(s, i) && !s.attached.contains(op.pc.touches()->0) {
                s.ops[j].pc.locks() && clear_line(t, j) == clear_line(s, j).push(op.value->0)
            } else if op.pc is Swap && s.tail is Some {
                i == j && clear_line(t, j) == line(s, s.attached)
            } else if op.pc is Lock && !s.clearing {
                i == j && clear_line(t, j) == Seq::<T>::empty()
            } else {
                s.ops[j].pc.locks() && clear_line(t, j) == clear_line(s, j)
            }
        }),
{
    let t = s.next(i, fresh);
    let op = s.ops[i];
    law_step_on_lines(s, i, fresh);
    assert(s.op_ok(op));
    assert(s.op_ok(s.ops[j]));
    if i != j {
        assert(t.ops[j] == s.ops[j]);
        if op.pc.locks() {
            law_one_clearer(s, i, j);
        }
        lemma_tally_covers(s.ops, lockers(), j);
        if claims(s, i) && !s.attached.contains(op.pc.touches()->0) {
            assert(s.ops[j].taken.len() == 0);
            assert(clear_line(t, j) =~= clear_line(s, j).push(op.value->0));
        }
    } else {
        match op.pc {
            Pc::Collect { head: Some(_) } => {
                let taken = t.ops[i].taken;
                assert(taken.drop_last() =~= op.taken);
                assert(clear_line(t, i) =~= clear_line(s, i));
            },
            Pc::Lock => {
                assert(op.taken.len() == 0);
                assert(clear_line(t, i) =~= Seq::<T>::empty());
            },
            Pc::Swap => {
                assert(op.taken.len() == 0);
                if s.tail is Some {
                    assert(clear_line(t, i) =~= line(s, s.attached));
                }
            },
            _ => {
                assert(t.ops[i].taken == op.taken);
            },
        }
    }
}

} // verus!
