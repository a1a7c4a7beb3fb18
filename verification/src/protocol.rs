//! What holds of a stripe under every interleaving of the operations on it.
use crate::block::{BlockView, BLOCK_SIZE};
use crate::gate::COUNT_MASK;
use crate::model::{OpView, Pc, Stage, State, Task};
use crate::sums::tally;
use vstd::prelude::*;

verus! {

/// One operation for each that is counted in a phase.
pub open spec fn in_phase<T>(phase: nat) -> spec_fn(OpView<T>) -> nat {
    |op: OpView<T>|
        if op.pc.unit() matches Some(p) && p == phase {
            1
        } else {
            0
        }
}

/// One operation for each that locks out clearing operations.
pub open spec fn lockers<T>() -> spec_fn(OpView<T>) -> nat {
    |op: OpView<T>|
        if op.pc.locks() {
            1
        } else {
            0
        }
}

/// How often an operation can have asked for a slot of the most recent block in vain.
pub open spec fn refusals<T>(tail: usize) -> spec_fn(OpView<T>) -> nat {
    |op: OpView<T>|
        match op.pc {
            Pc::LoadTail { .. } => if op.task == Task::Push {
                1
            } else {
                0
            },
            Pc::Claim { block, installed, .. } => if block == tail && !installed {
                1
            } else {
                0
            },
            Pc::Grow { block, .. } => if block == tail {
                2
            } else {
                0
            },
            Pc::Extend { block, .. } => if block == tail {
                2
            } else {
                0
            },
            _ => 0,
        }
}

/// One operation for each that is about to ask for a slot of a block.
pub open spec fn claimants<T>(address: usize) -> spec_fn(OpView<T>) -> nat {
    |op: OpView<T>|
        match op.pc {
            Pc::Claim { block, .. } => if block == address {
                1
            } else {
                0
            },
            _ => 0,
        }
}

impl<T> State<T> {
    /// The place of a block in a list: it is followed by the block that came before it, and only
    /// the newest block can have slots that have not been claimed.
    pub open spec fn linked(self, list: Seq<usize>, k: int) -> bool {
        &&& self.has(list[k])
        &&& self.block(list[k]).next == if k + 1 < list.len() {
            Some(list[k + 1])
        } else {
            None
        }
        &&& k > 0 ==> self.block(list[k]).write >= BLOCK_SIZE
    }

    /// A list of blocks, newest first.
    pub open spec fn is_list(self, list: Seq<usize>) -> bool {
        &&& list.no_duplicates()
        &&& forall|k: int| 0 <= k < list.len() ==> #[trigger] self.linked(list, k)
    }

    /// Whether an operation that has entered the stripe in a phase may have hold of a block.
    pub open spec fn touchable(self, phase: usize, address: usize) -> bool {
        ||| self.attached.contains(address)
        ||| self.detached.contains(address) && (self.stage is Swapped || self.stage
            == Stage::Draining { previous: phase })
    }

    /// The point that the clearing operation has got to is the one that the stage says.
    pub open spec fn stage_fits(self, pc: Pc) -> bool {
        match pc {
            Pc::Swap => self.stage is Locked,
            Pc::Flip { block } => self.stage is Swapped && self.detached[0] == block,
            Pc::Drain { previous, block } => self.stage == Stage::Draining { previous }
                && self.detached[0] == block,
            Pc::Collect { head } => self.stage is Owned && match head {
                None => self.detached.len() == 0,
                Some(address) => self.detached.len() > 0 && self.detached[0] == address,
            },
            Pc::HandOver => self.stage is Locked,
            Pc::Unlock => self.stage is Locked,
            _ => true,
        }
    }

    /// What holds of an operation by itself.
    pub open spec fn op_ok(self, op: OpView<T>) -> bool {
        &&& op.pc.fits(op.task)
        &&& op.value is Some <==> op.task == Task::Push && op.pc.carries()
        &&& op.pc matches Pc::Arrive { phase } ==> phase < 2
        &&& op.pc.unit() matches Some(phase) ==> phase < 2
        &&& op.pc.entered() matches Some(phase) ==> phase == self.phase || self.stage
            == Stage::Draining { previous: phase }
        &&& op.pc.touches() matches Some(address) ==> self.touchable(
            op.pc.entered()->0,
            address,
        )
        &&& op.pc.owns() matches Some(own) ==> {
            &&& self.has(own.0)
            &&& self.block(own.0) == BlockView::<T>::fresh(own.1)
            &&& !self.attached.contains(own.0)
            &&& !self.detached.contains(own.0)
        }
        &&& op.pc.pending() matches Some(slot) ==> {
            &&& slot.1 < BLOCK_SIZE
            &&& slot.1 < self.block(slot.0).write
            &&& !self.block(slot.0).ready[slot.1 as int]
            &&& self.block(slot.0).slots[slot.1 as int] is Some <==> op.pc is Publish
        }
        &&& op.pc matches Pc::Grow { block, .. } ==> self.block(block).write >= BLOCK_SIZE
        &&& op.pc matches Pc::Extend { block, .. } ==> self.block(block).write >= BLOCK_SIZE
        &&& op.pc matches Pc::ProbeNext { block, .. } ==> self.block(block).write >= BLOCK_SIZE
        &&& op.pc matches Pc::Compare { block, len, .. } ==> len <= self.block(block).len()
        &&& self.stage_fits(op.pc)
        &&& op.taken.len() > 0 ==> op.pc is Collect || op.pc is HandOver
        &&& forall|k: int|
            0 <= k < op.taken.len() ==> #[trigger] op.taken[k].valid() && op.taken[k].quiesced()
    }

    /// Whether an operation is still to publish a slot.
    pub open spec fn held(self, address: usize, index: int) -> bool {
        exists|i: int|
            0 <= i < self.ops.len() && #[trigger] self.ops[i].pc.pending() == Some(
                (address, index as usize),
            )
    }

    /// Whether an operation has made a block and not attached it yet.
    pub open spec fn owned(self, address: usize) -> bool {
        exists|i: int|
            0 <= i < self.ops.len() && (#[trigger] self.ops[i].pc.owns() matches Some(own)
                && own.0 == address)
    }

    /// The counts are those of the operations, and at most one clearing operation is at work.
    pub open spec fn counts_ok(self) -> bool {
        &&& self.ops.len() <= COUNT_MASK
        &&& self.phase < 2
        &&& self.low == tally(self.ops, in_phase(0))
        &&& self.high == tally(self.ops, in_phase(1))
        &&& self.clearing <==> !(self.stage is Open)
        &&& tally(self.ops, lockers()) == if self.clearing {
            1nat
        } else {
            0
        }
    }

    /// The attached and the detached blocks form two lists that share no block.
    pub open spec fn lists_ok(self) -> bool {
        &&& self.is_list(self.attached)
        &&& self.is_list(self.detached)
        &&& forall|address: usize|
            #[trigger] self.attached.contains(address) ==> !self.detached.contains(address)
        &&& self.tail == if self.attached.len() > 0 {
            Some(self.attached[0])
        } else {
            None
        }
        &&& self.stage is Open || self.stage is Locked ==> self.detached.len() == 0
        &&& self.stage is Swapped ==> self.detached.len() > 0
        &&& self.stage matches Stage::Draining { previous } ==> self.detached.len() > 0 && previous
            == 1 - self.phase
    }

    /// What holds of each operation, and of each two.
    pub open spec fn ops_ok(self) -> bool {
        &&& forall|i: int| 0 <= i < self.ops.len() ==> self.op_ok(#[trigger] self.ops[i])
        &&& forall|i: int, j: int|
            0 <= i < self.ops.len() && 0 <= j < self.ops.len() && i != j && (
            #[trigger] self.ops[i].pc.owns()) is Some && (#[trigger] self.ops[j].pc.owns()) is Some
                ==> (self.ops[i].pc.owns()->0).0 != (self.ops[j].pc.owns()->0).0
        &&& forall|i: int, j: int|
            0 <= i < self.ops.len() && 0 <= j < self.ops.len() && i != j && (
            #[trigger] self.ops[i].pc.pending()) is Some && (
            #[trigger] self.ops[j].pc.pending()) is Some ==> self.ops[i].pc.pending()
                != self.ops[j].pc.pending()
    }

    /// Every block is in one of the lists or is still to be attached, and every claimed slot is
    /// ready or is still to be published.
    pub open spec fn blocks_ok(self) -> bool {
        &&& forall|address: usize|
            #[trigger] self.has(address) ==> {
                ||| self.attached.contains(address)
                ||| self.detached.contains(address)
                ||| self.owned(address)
            }
        &&& forall|address: usize| #[trigger] self.has(address) ==> self.block(address).valid()
        &&& forall|address: usize, index: int|
            self.has(address) && 0 <= index < self.block(address).claimed()
                && !#[trigger] self.block(address).ready[index] ==> self.held(address, index)
    }

    /// The write index of a block stays far from overflowing: a block is asked for slots in vain
    /// only as often as there are operations.
    pub open spec fn bounds_ok(self) -> bool {
        &&& self.tail matches Some(tail) ==> self.block(tail).write <= BLOCK_SIZE + tally(
            self.ops,
            refusals(tail),
        )
        &&& forall|address: usize| #[trigger]
            self.has(address) && self.tail != Some(address) ==> self.block(address).write + tally(
                self.ops,
                claimants(address),
            ) <= BLOCK_SIZE + 2 * self.ops.len()
    }

    /// What holds of a stripe at every moment, whatever the operations on it are doing.
    pub open spec fn inv(self) -> bool {
        &&& self.counts_ok()
        &&& self.lists_ok()
        &&& self.ops_ok()
        &&& self.blocks_ok()
        &&& self.bounds_ok()
    }
}

/// A stripe with no blocks and no operations is in order.
pub proof fn lemma_empty<T>()
    ensures
        State::<T>::empty().inv(),
        State::<T>::empty().quiet(),
{
}

/// The blocks that follow a block of a list are in the list.
pub proof fn lemma_list_next<T>(s: State<T>, list: Seq<usize>, address: usize)
    requires
        s.is_list(list),
        list.contains(address),
    ensures
        s.has(address),
        s.block(address).next matches Some(next) ==> list.contains(next),
{
    let k = choose|k: int| 0 <= k < list.len() && list[k] == address;
    assert(s.linked(list, k));
}

/// A block that an operation may have hold of is allocated, and so is the one that came before it.
pub proof fn lemma_touchable<T>(s: State<T>, phase: usize, address: usize)
    requires
        s.lists_ok(),
        s.touchable(phase, address),
    ensures
        s.has(address),
        s.block(address).next matches Some(next) ==> s.touchable(phase, next),
{
    if s.attached.contains(address) {
        lemma_list_next(s, s.attached, address);
    } else {
        lemma_list_next(s, s.detached, address);
    }
}

} // verus!
