//! The shared memory of a stripe, and the atomic steps that operations take on it.
//!
//! An operation is a small program whose every step touches the shared memory at most once.  What
//! operations on the same stripe do at the same time is an interleaving of their steps.  This
//! module says what each step does; what holds under every interleaving is stated in
//! [`protocol`](crate::protocol) and proved in [`steps`](crate::steps) and
//! [`laws`](crate::laws).
use crate::block::{BlockView, BLOCK_SIZE};
use crate::sums::gather;
use vstd::multiset::Multiset;
use vstd::prelude::*;

verus! {

/// What an operation is for.
#[derive(Clone, Copy, PartialEq, Eq, Structural)]
pub enum Task {
    /// Pushes a value into the stripe.
    Push,
    /// Tells whether the stripe has no values.
    IsEmpty,
    /// Looks at the values of the stripe, block by block.
    Read,
    /// Takes the values out of the stripe, block by block.
    Clear,
}

/// The step that an operation is about to take.
///
/// `phase` is the phase that the operation is counted in, and blocks are given by their address.
#[derive(Clone, Copy, PartialEq, Eq, Structural)]
pub enum Pc {
    /// No operation.
    Idle,
    /// Load the current phase.
    Guess,
    /// Count the operation in the phase that was loaded, and look whether it is the current one.
    Arrive { phase: usize },
    /// Take the count back, as the phase was not the current one.
    Undo { phase: usize },
    /// Load the most recent block.
    LoadTail { phase: usize },
    /// There is no block: make one.
    Allocate { phase: usize },
    /// Make the new block the most recent one, unless there is one by now.
    Install { phase: usize, block: usize },
    /// Ask for a slot of the block.  `installed` tells whether the operation has just attached
    /// the block itself.
    Claim { phase: usize, block: usize, installed: bool },
    /// Write the value into the claimed slot.
    Fill { phase: usize, block: usize, index: usize },
    /// Publish the slot.
    Publish { phase: usize, block: usize, index: usize },
    /// The block is full: make one that comes after it.
    Grow { phase: usize, block: usize },
    /// Make the new block the most recent one, if the full one still is.
    Extend { phase: usize, block: usize, fresh: usize },
    /// Look whether the most recent block has values.
    ProbeTail { phase: usize, block: usize },
    /// Load the block that came before.
    ProbeLink { phase: usize, block: usize },
    /// Look whether that block has values.
    ProbeNext { phase: usize, block: usize },
    /// Find the length of the block.
    Measure { phase: usize, block: usize },
    /// Compare the length with the number of claimed slots.
    Compare { phase: usize, block: usize, len: usize },
    /// Hand out the data of the block.
    Deliver { phase: usize, block: usize },
    /// Load the block that came before.
    Advance { phase: usize, block: usize },
    /// Take the operation's count back.
    Exit { phase: usize, answer: Option<bool> },
    /// Finished.
    Done { answer: Option<bool> },
    /// Lock out other clearing operations.
    Lock,
    /// Detach the list of blocks.
    Swap,
    /// Make the other phase the current one.
    Flip { block: usize },
    /// Wait until no operation of the previous phase is left.
    Drain { previous: usize, block: usize },
    /// Take the blocks of the detached list.
    Collect { head: Option<usize> },
    /// Hand out the blocks.
    HandOver,
    /// Let other clearing operations in.
    Unlock,
}

impl Pc {
    /// The phase whose count the operation is part of.
    pub open spec fn unit(self) -> Option<usize> {
        match self {
            Pc::Undo { phase } => Some(phase),
            _ => self.entered(),
        }
    }

    /// The phase in which the operation has entered the stripe.
    pub open spec fn entered(self) -> Option<usize> {
        match self {
            Pc::LoadTail { phase } => Some(phase),
            Pc::Allocate { phase } => Some(phase),
            Pc::Install { phase, .. } => Some(phase),
            Pc::Claim { phase, .. } => Some(phase),
            Pc::Fill { phase, .. } => Some(phase),
            Pc::Publish { phase, .. } => Some(phase),
            Pc::Grow { phase, .. } => Some(phase),
            Pc::Extend { phase, .. } => Some(phase),
            Pc::ProbeTail { phase, .. } => Some(phase),
            Pc::ProbeLink { phase, .. } => Some(phase),
            Pc::ProbeNext { phase, .. } => Some(phase),
            Pc::Measure { phase, .. } => Some(phase),
            Pc::Compare { phase, .. } => Some(phase),
            Pc::Deliver { phase, .. } => Some(phase),
            Pc::Advance { phase, .. } => Some(phase),
            Pc::Exit { phase, .. } => Some(phase),
            _ => None,
        }
    }

    /// The block that the operation has found in the list and may look into.
    pub open spec fn touches(self) -> Option<usize> {
        match self {
            Pc::Claim { block, .. } => Some(block),
            Pc::Fill { block, .. } => Some(block),
            Pc::Publish { block, .. } => Some(block),
            Pc::Grow { block, .. } => Some(block),
            Pc::Extend { block, .. } => Some(block),
            Pc::ProbeTail { block, .. } => Some(block),
            Pc::ProbeLink { block, .. } => Some(block),
            Pc::ProbeNext { block, .. } => Some(block),
            Pc::Measure { block, .. } => Some(block),
            Pc::Compare { block, .. } => Some(block),
            Pc::Deliver { block, .. } => Some(block),
            Pc::Advance { block, .. } => Some(block),
            _ => None,
        }
    }

    /// The block that the operation has made and not attached yet, and the block that it comes
    /// after.
    pub open spec fn owns(self) -> Option<(usize, Option<usize>)> {
        match self {
            Pc::Install { block, .. } => Some((block, None)),
            Pc::Extend { block, fresh, .. } => Some((fresh, Some(block))),
            _ => None,
        }
    }

    /// The slot that the operation has claimed and not published yet.
    pub open spec fn pending(self) -> Option<(usize, usize)> {
        match self {
            Pc::Fill { block, index, .. } => Some((block, index)),
            Pc::Publish { block, index, .. } => Some((block, index)),
            _ => None,
        }
    }

    /// Whether the operation locks out other clearing operations.
    pub open spec fn locks(self) -> bool {
        match self {
            Pc::Swap => true,
            Pc::Flip { .. } => true,
            Pc::Drain { .. } => true,
            Pc::Collect { .. } => true,
            Pc::HandOver => true,
            Pc::Unlock => true,
            _ => false,
        }
    }

    /// Whether a push still has its value at this point.
    pub open spec fn carries(self) -> bool {
        match self {
            Pc::Guess => true,
            Pc::Arrive { .. } => true,
            Pc::Undo { .. } => true,
            Pc::LoadTail { .. } => true,
            Pc::Allocate { .. } => true,
            Pc::Install { .. } => true,
            Pc::Claim { .. } => true,
            Pc::Fill { .. } => true,
            Pc::Grow { .. } => true,
            Pc::Extend { .. } => true,
            _ => false,
        }
    }

    /// Whether operations of a kind get to this point.
    pub open spec fn fits(self, task: Task) -> bool {
        match self {
            Pc::Idle => true,
            Pc::Done { .. } => true,
            Pc::Guess => task != Task::Clear,
            Pc::Arrive { .. } => task != Task::Clear,
            Pc::Undo { .. } => task != Task::Clear,
            Pc::LoadTail { .. } => task != Task::Clear,
            Pc::Exit { answer, .. } => task != Task::Clear && (answer is Some <==> task
                == Task::IsEmpty),
            Pc::Allocate { .. } => task == Task::Push,
            Pc::Install { .. } => task == Task::Push,
            Pc::Claim { .. } => task == Task::Push,
            Pc::Fill { .. } => task == Task::Push,
            Pc::Publish { .. } => task == Task::Push,
            Pc::Grow { .. } => task == Task::Push,
            Pc::Extend { .. } => task == Task::Push,
            Pc::ProbeTail { .. } => task == Task::IsEmpty,
            Pc::ProbeLink { .. } => task == Task::IsEmpty,
            Pc::ProbeNext { .. } => task == Task::IsEmpty,
            Pc::Measure { .. } => task == Task::Read,
            Pc::Compare { .. } => task == Task::Read,
            Pc::Deliver { .. } => task == Task::Read,
            Pc::Advance { .. } => task == Task::Read,
            Pc::Lock => task == Task::Clear,
            Pc::Swap => task == Task::Clear,
            Pc::Flip { .. } => task == Task::Clear,
            Pc::Drain { .. } => task == Task::Clear,
            Pc::Collect { .. } => task == Task::Clear,
            Pc::HandOver => task == Task::Clear,
            Pc::Unlock => task == Task::Clear,
        }
    }
}

/// How far the clearing operation that holds the lock has got.
pub enum Stage {
    /// No clearing operation holds the lock.
    Open,
    /// No list is detached.
    Locked,
    /// The list is detached, and operations of the current phase may still have hold of it.
    Swapped,
    /// Only operations of the previous phase may still have hold of the detached list.
    Draining { previous: usize },
    /// No other operation has hold of the detached list.
    Owned,
}

/// An operation.
#[verifier::ext_equal]
pub struct OpView<T> {
    pub task: Task,
    pub pc: Pc,
    /// The value that a push has not written yet.
    pub value: Option<T>,
    /// The blocks that a clearing operation has taken.
    pub taken: Seq<BlockView<T>>,
}

impl<T> OpView<T> {
    /// An operation before its first step.
    pub open spec fn start(task: Task, value: Option<T>) -> Self {
        OpView {
            task,
            pc: if task == Task::Clear {
                Pc::Lock
            } else {
                Pc::Guess
            },
            value,
            taken: Seq::empty(),
        }
    }

    /// No operation.
    pub open spec fn idle() -> Self {
        OpView { task: Task::Push, pc: Pc::Idle, value: None, taken: Seq::empty() }
    }

    /// The same operation at another point.
    pub open spec fn at(self, pc: Pc) -> Self {
        OpView { pc, ..self }
    }
}

/// The shared memory of a stripe, together with the operations in flight on it.
#[verifier::ext_equal]
pub struct State<T> {
    /// The allocated blocks, by address.
    pub heap: Seq<Option<BlockView<T>>>,
    /// The address of the most recently attached block.
    pub tail: Option<usize>,
    /// The current phase.
    pub phase: nat,
    /// The number of operations counted in phase 0.
    pub low: nat,
    /// The number of operations counted in phase 1.
    pub high: nat,
    /// Whether a clearing operation locks out others.
    pub clearing: bool,
    /// The operations.
    pub ops: Seq<OpView<T>>,
    /// The blocks of the list that starts at the tail, newest first.
    pub attached: Seq<usize>,
    /// The blocks of the detached list, newest first.
    pub detached: Seq<usize>,
    /// How far the clearing operation has got.
    pub stage: Stage,
}

/// What an address holds once a block has been put there.
pub open spec fn heap_with<T>(
    heap: Seq<Option<BlockView<T>>>,
    address: usize,
    block: BlockView<T>,
) -> Seq<Option<BlockView<T>>> {
    if address < heap.len() {
        heap.update(address as int, Some(block))
    } else {
        heap.push(Some(block))
    }
}

impl<T> State<T> {
    /// A stripe with no blocks and no operations.
    pub open spec fn empty() -> Self {
        State {
            heap: Seq::empty(),
            tail: None,
            phase: 0,
            low: 0,
            high: 0,
            clearing: false,
            ops: Seq::empty(),
            attached: Seq::empty(),
            detached: Seq::empty(),
            stage: Stage::Open,
        }
    }

    /// Whether a block is allocated at an address.
    pub open spec fn has(self, address: usize) -> bool {
        address < self.heap.len() && self.heap[address as int] is Some
    }

    /// Whether a block can be allocated at an address.
    pub open spec fn vacant(self, address: usize) -> bool {
        address <= self.heap.len() && !self.has(address)
    }

    /// The block at an address.
    pub open spec fn block(self, address: usize) -> BlockView<T> {
        self.heap[address as int]->0
    }

    /// The number of operations counted in a phase.
    pub open spec fn count(self, phase: nat) -> nat {
        if phase == 0 {
            self.low
        } else {
            self.high
        }
    }

    /// After an operation has been replaced.
    pub open spec fn with_op(self, i: int, op: OpView<T>) -> Self {
        State { ops: self.ops.update(i, op), ..self }
    }

    /// After an operation has got to another point.
    pub open spec fn with_pc(self, i: int, pc: Pc) -> Self {
        self.with_op(i, self.ops[i].at(pc))
    }

    /// After the count of a phase has changed.
    pub open spec fn with_count(self, phase: nat, count: nat) -> Self {
        if phase == 0 {
            State { low: count, ..self }
        } else {
            State { high: count, ..self }
        }
    }

    /// After a block has been put at an address.
    pub open spec fn with_block(self, address: usize, block: BlockView<T>) -> Self {
        State { heap: heap_with(self.heap, address, block), ..self }
    }

    /// After the block at an address has been released.
    pub open spec fn without_block(self, address: usize) -> Self {
        State { heap: self.heap.update(address as int, None), ..self }
    }

    /// Attaches a block to the list.
    pub open spec fn with_tail(self, address: usize) -> Self {
        State { tail: Some(address), attached: seq![address] + self.attached, ..self }
    }

    /// What an operation does after it has loaded the most recent block.
    pub open spec fn after_load_tail(self, task: Task, phase: usize) -> Pc {
        match (task, self.tail) {
            (Task::Push, None) => Pc::Allocate { phase },
            (Task::Push, Some(block)) => Pc::Claim { phase, block, installed: false },
            (Task::IsEmpty, None) => Pc::Exit { phase, answer: Some(true) },
            (Task::IsEmpty, Some(block)) => Pc::ProbeTail { phase, block },
            (_, None) => Pc::Exit { phase, answer: None },
            (_, Some(block)) => Pc::Measure { phase, block },
        }
    }

    /// What a push does after it has asked for a slot.
    pub open spec fn after_claim(self, phase: usize, block: usize, installed: bool) -> Pc {
        let index = self.block(block).write;
        if index < BLOCK_SIZE {
            Pc::Fill { phase, block, index: index as usize }
        } else if installed {
            Pc::LoadTail { phase }
        } else {
            Pc::Grow { phase, block }
        }
    }

    /// The step of an operation.  `fresh` is the address of a new block, where the step makes
    /// one.
    pub open spec fn next(self, i: int, fresh: usize) -> Self {
        let op = self.ops[i];
        match op.pc {
            Pc::Idle => self,
            Pc::Guess => self.with_pc(i, Pc::Arrive { phase: self.phase as usize }),
            Pc::Arrive { phase } => self.with_count(
                phase as nat,
                self.count(phase as nat) + 1,
            ).with_pc(
                i,
                if phase == self.phase {
                    Pc::LoadTail { phase }
                } else {
                    Pc::Undo { phase }
                },
            ),
            Pc::Undo { phase } => self.with_count(
                phase as nat,
                (self.count(phase as nat) - 1) as nat,
            ).with_pc(i, Pc::Guess),
            Pc::LoadTail { phase } => self.with_pc(i, self.after_load_tail(op.task, phase)),
            Pc::Allocate { phase } => self.with_block(fresh, BlockView::fresh(None)).with_pc(
                i,
                Pc::Install { phase, block: fresh },
            ),
            Pc::Install { phase, block } => match self.tail {
                None => self.with_tail(block).with_pc(
                    i,
                    Pc::Claim { phase, block, installed: false },
                ),
                Some(tail) => self.without_block(block).with_pc(
                    i,
                    Pc::Claim { phase, block: tail, installed: false },
                ),
            },
            Pc::Claim { phase, block, installed } => self.with_block(
                block,
                self.block(block).with_claim(),
            ).with_pc(i, self.after_claim(phase, block, installed)),
            Pc::Fill { phase, block, index } => self.with_block(
                block,
                self.block(block).with_value(index as int, op.value->0),
            ).with_op(i, OpView { value: None, ..op.at(Pc::Publish { phase, block, index }) }),
            Pc::Publish { phase, block, index } => self.with_block(
                block,
                self.block(block).with_ready(index as int),
            ).with_pc(i, Pc::Exit { phase, answer: None }),
            Pc::Grow { phase, block } => self.with_block(
                fresh,
                BlockView::fresh(Some(block)),
            ).with_pc(i, Pc::Extend { phase, block, fresh }),
            Pc::Extend { phase, block, fresh } => if self.tail == Some(block) {
                self.with_tail(fresh).with_pc(
                    i,
                    Pc::Claim { phase, block: fresh, installed: true },
                )
            } else {
                self.without_block(fresh).with_pc(i, Pc::LoadTail { phase })
            },
            Pc::ProbeTail { phase, block } => self.with_pc(
                i,
                if self.block(block).len() == 0 {
                    Pc::ProbeLink { phase, block }
                } else {
                    Pc::Exit { phase, answer: Some(false) }
                },
            ),
            Pc::ProbeLink { phase, block } => self.with_pc(
                i,
                match self.block(block).next {
                    None => Pc::Exit { phase, answer: Some(true) },
                    Some(next) => Pc::ProbeNext { phase, block: next },
                },
            ),
            Pc::ProbeNext { phase, block } => self.with_pc(
                i,
                Pc::Exit { phase, answer: Some(self.block(block).len() == 0) },
            ),
            Pc::Measure { phase, block } => self.with_pc(
                i,
                if self.block(block).len() == BLOCK_SIZE {
                    Pc::Deliver { phase, block }
                } else {
                    Pc::Compare { phase, block, len: self.block(block).len() as usize }
                },
            ),
            Pc::Compare { phase, block, len } => self.with_pc(
                i,
                if self.block(block).claimed() == len {
                    Pc::Deliver { phase, block }
                } else {
                    Pc::Measure { phase, block }
                },
            ),
            Pc::Deliver { phase, block } => self.with_pc(i, Pc::Advance { phase, block }),
            Pc::Advance { phase, block } => self.with_pc(
                i,
                match self.block(block).next {
                    None => Pc::Exit { phase, answer: None },
                    Some(next) => Pc::Measure { phase, block: next },
                },
            ),
            Pc::Exit { phase, answer } => self.with_count(
                phase as nat,
                (self.count(phase as nat) - 1) as nat,
            ).with_pc(i, Pc::Done { answer }),
            Pc::Done { .. } => self,
            Pc::Lock => if self.clearing {
                self
            } else {
                State { clearing: true, stage: Stage::Locked, ..self }.with_pc(i, Pc::Swap)
            },
            Pc::Swap => match self.tail {
                None => self.with_pc(i, Pc::HandOver),
                Some(block) => State {
                    tail: None,
                    attached: Seq::empty(),
                    detached: self.attached,
                    stage: Stage::Swapped,
                    ..self
                }.with_pc(i, Pc::Flip { block }),
            },
            Pc::Flip { block } => State {
                phase: (1 - self.phase) as nat,
                stage: Stage::Draining { previous: self.phase as usize },
                ..self
            }.with_pc(i, Pc::Drain { previous: self.phase as usize, block }),
            Pc::Drain { previous, block } => if self.count(previous as nat) != 0 {
                self
            } else {
                State { stage: Stage::Owned, ..self }.with_pc(
                    i,
                    Pc::Collect { head: Some(block) },
                )
            },
            Pc::Collect { head } => match head {
                None => State { stage: Stage::Locked, ..self }.with_pc(i, Pc::HandOver),
                Some(block) => State {
                    detached: self.detached.drop_first(),
                    ..self.without_block(block)
                }.with_op(
                    i,
                    OpView {
                        taken: op.taken.push(self.block(block)),
                        ..op.at(Pc::Collect { head: self.block(block).next })
                    },
                ),
            },
            Pc::HandOver => self,
            Pc::Unlock => State { clearing: false, stage: Stage::Open, ..self }.with_pc(
                i,
                Pc::Done { answer: None },
            ),
        }
    }
}

impl<T> State<T> {
    /// Starts an operation in the place of an idle one.
    pub open spec fn begin(self, i: int, task: Task, value: Option<T>) -> Self {
        if i < self.ops.len() {
            self.with_op(i, OpView::start(task, value))
        } else {
            State { ops: self.ops.push(OpView::start(task, value)), ..self }
        }
    }

    /// Has an operation that is looking at a block exit at once.
    pub open spec fn abandon(self, i: int) -> Self {
        self.with_pc(
            i,
            match self.ops[i].pc {
                Pc::Deliver { phase, .. } => Pc::Exit { phase, answer: None },
                pc => pc,
            },
        )
    }

    /// Hands out the blocks that a clearing operation has taken.
    pub open spec fn hand_over(self, i: int) -> Self {
        self.with_op(i, OpView { taken: Seq::empty(), ..self.ops[i].at(Pc::Unlock) })
    }

    /// Forgets a finished operation.
    pub open spec fn finish(self, i: int) -> Self {
        self.with_op(i, OpView::idle())
    }
}

/// The value that a slot holds.
pub open spec fn in_slot<T>() -> spec_fn(Option<T>) -> Multiset<T> {
    |slot: Option<T>|
        match slot {
            None => Multiset::empty(),
            Some(value) => Multiset::singleton(value),
        }
}

/// The values that a block holds.
pub open spec fn in_block<T>() -> spec_fn(BlockView<T>) -> Multiset<T> {
    |block: BlockView<T>| gather(block.slots, in_slot())
}

/// The values that an address holds.
pub open spec fn in_cell<T>() -> spec_fn(Option<BlockView<T>>) -> Multiset<T> {
    |cell: Option<BlockView<T>>|
        match cell {
            None => Multiset::empty(),
            Some(block) => in_block()(block),
        }
}

/// The values that an operation holds.
pub open spec fn in_op<T>() -> spec_fn(OpView<T>) -> Multiset<T> {
    |op: OpView<T>| in_slot()(op.value).add(gather(op.taken, in_block()))
}

impl<T> State<T> {
    /// All values that have been handed to the stripe and not been handed out by it: those in its
    /// blocks, and those that operations in flight hold.
    pub open spec fn total(self) -> Multiset<T> {
        gather(self.heap, in_cell()).add(gather(self.ops, in_op()))
    }

    /// Whether no operation is in flight.
    pub open spec fn quiet(self) -> bool {
        forall|i: int| 0 <= i < self.ops.len() ==> #[trigger] self.ops[i] == OpView::<T>::idle()
    }

    /// The data of the attached blocks, newest block first.
    pub open spec fn contents(self) -> Seq<Seq<T>> {
        self.attached.map_values(|address: usize| self.block(address).data())
    }
}

} // verus!
