//! A stripe: a list of blocks that many operations can work on at the same time.
use crate::block::{Block, BLOCK_SIZE};
use crate::gate::{Gate, COUNT_MASK};
use crate::heap::Heap;
use crate::laws::{
    law_abandon_keeps_values, law_begin_adds_value, law_finish_keeps_values,
    law_hand_over_removes_values, law_step_keeps_values,
};
use crate::model::{in_block, in_slot, OpView, Pc, Stage, State, Task};
use crate::protocol::{lemma_empty, lemma_list_next, lemma_touchable};
use crate::steps::{
    law_step_keeps_order, lemma_abandon, lemma_arrive_has_room, lemma_begin, lemma_claim_has_room,
    lemma_finish, lemma_hand_over, lemma_leave_has_count,
};
use crate::sums::gather;
use vstd::prelude::*;

verus! {

/// An operation in flight.
struct Op<T> {
    task: Task,
    pc: Pc,
    // The value that a push has not written yet.
    value: Option<T>,
    // The blocks that a clearing operation has taken.
    taken: Vec<Block<T>>,
}

impl<T> View for Op<T> {
    type V = OpView<T>;

    closed spec fn view(&self) -> OpView<T> {
        OpView {
            task: self.task,
            pc: self.pc,
            value: self.value,
            taken: self.taken@.map_values(|block: Block<T>| block@),
        }
    }
}

impl<T> Op<T> {
    spec fn wf(&self) -> bool {
        forall|k: int| 0 <= k < self.taken.len() ==> (#[trigger] self.taken[k]).wf()
    }
}

/// How an operation has got on with a step.
#[derive(Clone, Copy, Debug, PartialEq, Eq, Structural)]
pub enum Progress {
    /// There are more steps to take.
    Running,
    /// There are more steps to take, but they lead nowhere until another operation has taken one.
    Waiting,
    /// The data of a block can be looked at.
    Visiting,
    /// The blocks that were taken can be handed over.
    HandingOver,
    /// There are no more steps to take.
    Finished,
}

/// Whether the next step of an operation has to wait for another operation.
pub open spec fn blocked<T>(s: State<T>, i: int) -> bool {
    match s.ops[i].pc {
        Pc::Compare { block, len, .. } => s.block(block).claimed() != len,
        Pc::Lock => s.clearing,
        Pc::Drain { previous, .. } => s.count(previous as nat) != 0,
        _ => false,
    }
}

/// How an operation gets on with a step from one state to another.
pub open spec fn progress<T>(s: State<T>, t: State<T>, i: int) -> Progress {
    match t.ops[i].pc {
        Pc::Idle => Progress::Finished,
        Pc::Done { .. } => Progress::Finished,
        Pc::Deliver { .. } => Progress::Visiting,
        Pc::HandOver => Progress::HandingOver,
        _ => if blocked(s, i) {
            Progress::Waiting
        } else {
            Progress::Running
        },
    }
}

/// A single stripe of a bucket.
///
/// Each stripe is its own singly-linked list of blocks.
///
/// Stripes also track operations in flight, which is what allows a stripe to be cleared while
/// writers and readers are still using it: an operation enters the stripe before it touches the
/// list, and exits once it is done.  A clearing operation detaches the list and then waits until
/// every operation that entered before the detach has exited, at which point the detached blocks
/// can no longer be referenced by anyone and belong to the clearing operation.
pub struct Stripe<T> {
    // The allocated blocks.
    heap: Heap<T>,
    // The most recently attached block.
    tail: Option<usize>,
    // The current phase and the number of operations in flight in each phase.
    gate: Gate,
    // Serializes clearing operations, so that only one of them flips the phase at a time.
    clearing: bool,
    // The operations in flight, by ticket.
    ops: Vec<Op<T>>,
    attached: Ghost<Seq<usize>>,
    detached: Ghost<Seq<usize>>,
    stage: Ghost<Stage>,
}

impl<T> View for Stripe<T> {
    type V = State<T>;

    closed spec fn view(&self) -> State<T> {
        State {
            heap: self.heap@,
            tail: self.tail,
            phase: self.gate.phase(),
            low: self.gate.count(0),
            high: self.gate.count(1),
            clearing: self.clearing,
            ops: self.ops@.map_values(|op: Op<T>| op@),
            attached: self.attached@,
            detached: self.detached@,
            stage: self.stage@,
        }
    }
}

impl<T> Stripe<T> {
    /// The operations and the blocks are in order.
    pub closed spec fn wf(&self) -> bool {
        &&& self@.inv()
        &&& self.heap.wf()
        &&& forall|i: int| 0 <= i < self.ops.len() ==> (#[trigger] self.ops[i]).wf()
    }

    /// Whether there is a ticket for one more operation.
    pub open spec fn has_ticket(&self) -> bool {
        self@.ops.len() < COUNT_MASK || exists|i: int|
            0 <= i < self@.ops.len() && #[trigger] self@.ops[i] == OpView::<T>::idle()
    }

    /// Whether one step of an operation leads from this stripe to another one.
    pub open spec fn steps_to(&self, ticket: usize, after: State<T>) -> bool {
        exists|fresh: usize| #[trigger]
            self@.vacant(fresh) && after == self@.next(ticket as int, fresh)
    }

    /// Creates a stripe with no blocks.
    pub fn new() -> (stripe: Self)
        ensures
            stripe.wf(),
            stripe@ == State::<T>::empty(),
    {
        let stripe = Stripe {
            heap: Heap::new(),
            tail: None,
            gate: Gate::new(),
            clearing: false,
            ops: Vec::new(),
            attached: Ghost(Seq::empty()),
            detached: Ghost(Seq::empty()),
            stage: Ghost(Stage::Open),
        };
        proof {
            lemma_empty::<T>();
            assert(stripe@ =~= State::<T>::empty());
        }
        stripe
    }

    /// Closes the proof of a step that makes no block.
    proof fn lemma_stepped(before: Stripe<T>, after: Stripe<T>, ticket: usize)
        requires
            before.wf(),
            ticket < before@.ops.len(),
            after@ == before@.next(ticket as int, before.heap.frontier()),
            after.heap.wf(),
            forall|i: int| 0 <= i < after.ops.len() ==> (#[trigger] after.ops[i]).wf(),
        ensures
            after.wf(),
            before.steps_to(ticket, after@),
    {
        before.heap.lemma_frontier();
        assert(before@.vacant(before.heap.frontier()));
        law_step_keeps_order(before@, ticket as int, before.heap.frontier());
    }

    /// Marks an operation as having entered the stripe.
    ///
    /// The operation has to be counted in whatever the current phase is at the moment of the
    /// count, but the phase can only be read together with the counts, so it is guessed from a
    /// plain load, and checked with the count.  If the guess was wrong, the count is taken back
    /// and the operation tries again.
    fn enter(&mut self, ticket: usize)
        requires
            old(self).wf(),
            ticket < old(self)@.ops.len(),
            old(self)@.ops[ticket as int].pc is Guess || old(self)@.ops[ticket as int].pc is Arrive
                || old(self)@.ops[ticket as int].pc is Undo,
        ensures
            final(self).wf(),
            old(self).steps_to(ticket, final(self)@),
    {
        match self.ops[ticket].pc {
            Pc::Guess => {
                self.ops[ticket].pc = Pc::Arrive { phase: self.gate.current() };
            },
            Pc::Arrive { phase } => {
                proof {
                    lemma_arrive_has_room(self@, ticket as int, phase);
                }
                self.ops[ticket].pc = if self.gate.arrive(phase) {
                    Pc::LoadTail { phase }
                } else {
                    Pc::Undo { phase }
                };
            },
            Pc::Undo { phase } => {
                proof {
                    lemma_leave_has_count(self@, ticket as int, phase);
                }
                self.gate.leave(phase);
                self.ops[ticket].pc = Pc::Guess;
            },
            _ => {},
        }
        proof {
            assert(self@ =~= old(self)@.next(ticket as int, old(self).heap.frontier()));
            Self::lemma_stepped(*old(self), *self, ticket);
        }
    }

    /// Marks an operation as having exited the stripe.
    fn exit(&mut self, ticket: usize)
        requires
            old(self).wf(),
            ticket < old(self)@.ops.len(),
            old(self)@.ops[ticket as int].pc is Exit,
        ensures
            final(self).wf(),
            old(self).steps_to(ticket, final(self)@),
    {
        if let Pc::Exit { phase, answer } = self.ops[ticket].pc {
            proof {
                lemma_leave_has_count(self@, ticket as int, phase);
            }
            self.gate.leave(phase);
            self.ops[ticket].pc = Pc::Done { answer };
        }
        proof {
            assert(self@ =~= old(self)@.next(ticket as int, old(self).heap.frontier()));
            Self::lemma_stepped(*old(self), *self, ticket);
        }
    }

    /// Loads the most recent block.
    fn load_tail(&mut self, ticket: usize)
        requires
            old(self).wf(),
            ticket < old(self)@.ops.len(),
            old(self)@.ops[ticket as int].pc is LoadTail,
        ensures
            final(self).wf(),
            old(self).steps_to(ticket, final(self)@),
    {
        if let Pc::LoadTail { phase } = self.ops[ticket].pc {
            self.ops[ticket].pc = match (self.ops[ticket].task, self.tail) {
                (Task::Push, None) => Pc::Allocate { phase },
                (Task::Push, Some(block)) => Pc::Claim { phase, block, installed: false },
                (Task::IsEmpty, None) => Pc::Exit { phase, answer: Some(true) },
                (Task::IsEmpty, Some(block)) => Pc::ProbeTail { phase, block },
                (_, None) => Pc::Exit { phase, answer: None },
                (_, Some(block)) => Pc::Measure { phase, block },
            };
        }
        proof {
            assert(self@ =~= old(self)@.next(ticket as int, old(self).heap.frontier()));
            Self::lemma_stepped(*old(self), *self, ticket);
        }
    }

    /// Makes the first block, or one that comes after a full one.  Nobody else can see the new
    /// block until it is attached.
    fn make_block(&mut self, ticket: usize)
        requires
            old(self).wf(),
            ticket < old(self)@.ops.len(),
            old(self)@.ops[ticket as int].pc is Allocate || old(self)@.ops[ticket as int].pc is Grow,
        ensures
            final(self).wf(),
            old(self).steps_to(ticket, final(self)@),
    {
        match self.ops[ticket].pc {
            Pc::Allocate { phase } => {
                let fresh: usize = self.heap.allocate(Block::new());
                self.ops[ticket].pc = Pc::Install { phase, block: fresh };
                proof {
                    assert(old(self)@.vacant(fresh));
                    assert(self@ =~= old(self)@.next(ticket as int, fresh));
                    law_step_keeps_order(old(self)@, ticket as int, fresh);
                }
            },
            Pc::Grow { phase, block } => {
                let fresh: usize = self.heap.allocate(Block::after(Some(block)));
                self.ops[ticket].pc = Pc::Extend { phase, block, fresh };
                proof {
                    assert(old(self)@.vacant(fresh));
                    assert(self@ =~= old(self)@.next(ticket as int, fresh));
                    law_step_keeps_order(old(self)@, ticket as int, fresh);
                }
            },
            _ => {},
        }
    }

    /// Attaches a new block, unless somebody else was quicker: then the new block is freed.
    fn attach_block(&mut self, ticket: usize)
        requires
            old(self).wf(),
            ticket < old(self)@.ops.len(),
            old(self)@.ops[ticket as int].pc is Install || old(self)@.ops[ticket as int].pc is Extend,
        ensures
            final(self).wf(),
            old(self).steps_to(ticket, final(self)@),
    {
        proof {
            assert(self@.op_ok(self@.ops[ticket as int]));
        }
        match self.ops[ticket].pc {
            Pc::Install { phase, block } => {
                match self.tail {
                    None => {
                        self.tail = Some(block);
                        proof {
                            self.attached@ = seq![block] + self.attached@;
                        }
                        self.ops[ticket].pc = Pc::Claim { phase, block, installed: false };
                    },
                    Some(tail) => {
                        self.heap.release(block);
                        self.ops[ticket].pc = Pc::Claim { phase, block: tail, installed: false };
                    },
                }
            },
            Pc::Extend { phase, block, fresh } => {
                if self.tail == Some(block) {
                    self.tail = Some(fresh);
                    proof {
                        self.attached@ = seq![fresh] + self.attached@;
                    }
                    self.ops[ticket].pc = Pc::Claim { phase, block: fresh, installed: true };
                } else {
                    self.heap.release(fresh);
                    self.ops[ticket].pc = Pc::LoadTail { phase };
                }
            },
            _ => {},
        }
        proof {
            assert(self@ =~= old(self)@.next(ticket as int, old(self).heap.frontier()));
            Self::lemma_stepped(*old(self), *self, ticket);
        }
    }

    /// Claims, writes or publishes a slot of a block.
    fn write_slot(&mut self, ticket: usize)
        requires
            old(self).wf(),
            ticket < old(self)@.ops.len(),
            old(self)@.ops[ticket as int].pc is Claim || old(self)@.ops[ticket as int].pc is Fill
                || old(self)@.ops[ticket as int].pc is Publish,
        ensures
            final(self).wf(),
            old(self).steps_to(ticket, final(self)@),
    {
        proof {
            let op = self@.ops[ticket as int];
            assert(self@.op_ok(op));
            lemma_touchable(self@, op.pc.entered()->0, op.pc.touches()->0);
            assert(self@.block(op.pc.touches()->0).valid());
            if op.pc is Claim {
                lemma_claim_has_room(self@, ticket as int);
            }
        }
        match self.ops[ticket].pc {
            Pc::Claim { phase, block, installed } => {
                let index: usize = self.heap.block_mut(block).claim();
                self.ops[ticket].pc = if index < BLOCK_SIZE {
                    Pc::Fill { phase, block, index }
                } else if installed {
                    Pc::LoadTail { phase }
                } else {
                    Pc::Grow { phase, block }
                };
            },
            Pc::Fill { phase, block, index } => {
                if let Some(value) = self.ops[ticket].value.take() {
                    self.heap.block_mut(block).fill(index, value);
                }
                self.ops[ticket].pc = Pc::Publish { phase, block, index };
            },
            Pc::Publish { phase, block, index } => {
                self.heap.block_mut(block).publish(index);
                self.ops[ticket].pc = Pc::Exit { phase, answer: None };
            },
            _ => {},
        }
        proof {
            assert(self@ =~= old(self)@.next(ticket as int, old(self).heap.frontier()));
            Self::lemma_stepped(*old(self), *self, ticket);
        }
    }

    /// Looks whether the most recent block has values.  The block that came before it has to be
    /// looked at as well, in case the most recent one is simply a fresh block that has not been
    /// written to yet.
    fn probe(&mut self, ticket: usize)
        requires
            old(self).wf(),
            ticket < old(self)@.ops.len(),
            old(self)@.ops[ticket as int].pc is ProbeTail || old(self)@.ops[ticket as int].pc is ProbeLink
                || old(self)@.ops[ticket as int].pc is ProbeNext,
        ensures
            final(self).wf(),
            old(self).steps_to(ticket, final(self)@),
    {
        proof {
            let op = self@.ops[ticket as int];
            assert(self@.op_ok(op));
            lemma_touchable(self@, op.pc.entered()->0, op.pc.touches()->0);
        }
        match self.ops[ticket].pc {
            Pc::ProbeTail { phase, block } => {
                self.ops[ticket].pc = if self.heap.block(block).len() == 0 {
                    Pc::ProbeLink { phase, block }
                } else {
                    Pc::Exit { phase, answer: Some(false) }
                };
            },
            Pc::ProbeLink { phase, block } => {
                self.ops[ticket].pc = match self.heap.block(block).next() {
                    None => Pc::Exit { phase, answer: Some(true) },
                    Some(next) => Pc::ProbeNext { phase, block: next },
                };
            },
            Pc::ProbeNext { phase, block } => {
                let empty: bool = self.heap.block(block).len() == 0;
                self.ops[ticket].pc = Pc::Exit { phase, answer: Some(empty) };
            },
            _ => {},
        }
        proof {
            assert(self@ =~= old(self)@.next(ticket as int, old(self).heap.frontier()));
            Self::lemma_stepped(*old(self), *self, ticket);
        }
    }

    /// Visits the blocks of the list.  A block is visited once it is quiesced, so that all writes
    /// that are in flight are seen.
    fn visit(&mut self, ticket: usize)
        requires
            old(self).wf(),
            ticket < old(self)@.ops.len(),
            old(self)@.ops[ticket as int].pc is Measure || old(self)@.ops[ticket as int].pc is Compare
                || old(self)@.ops[ticket as int].pc is Deliver
                || old(self)@.ops[ticket as int].pc is Advance,
        ensures
            final(self).wf(),
            old(self).steps_to(ticket, final(self)@),
    {
        proof {
            let op = self@.ops[ticket as int];
            assert(self@.op_ok(op));
            lemma_touchable(self@, op.pc.entered()->0, op.pc.touches()->0);
        }
        match self.ops[ticket].pc {
            Pc::Measure { phase, block } => {
                let len: usize = self.heap.block(block).len();
                self.ops[ticket].pc = if len == BLOCK_SIZE {
                    Pc::Deliver { phase, block }
                } else {
                    Pc::Compare { phase, block, len }
                };
            },
            Pc::Compare { phase, block, len } => {
                self.ops[ticket].pc = if self.heap.block(block).claimed() == len {
                    Pc::Deliver { phase, block }
                } else {
                    Pc::Measure { phase, block }
                };
            },
            Pc::Deliver { phase, block } => {
                self.ops[ticket].pc = Pc::Advance { phase, block };
            },
            Pc::Advance { phase, block } => {
                self.ops[ticket].pc = match self.heap.block(block).next() {
                    None => Pc::Exit { phase, answer: None },
                    Some(next) => Pc::Measure { phase, block: next },
                };
            },
            _ => {},
        }
        proof {
            assert(self@ =~= old(self)@.next(ticket as int, old(self).heap.frontier()));
            Self::lemma_stepped(*old(self), *self, ticket);
        }
    }

    /// Detaches the list of blocks, waits until nobody else has hold of it, and takes it.
    fn take_list(&mut self, ticket: usize)
        requires
            old(self).wf(),
            ticket < old(self)@.ops.len(),
            old(self)@.ops[ticket as int].pc is Lock || old(self)@.ops[ticket as int].pc.locks(),
            !(old(self)@.ops[ticket as int].pc is HandOver),
        ensures
            final(self).wf(),
            old(self).steps_to(ticket, final(self)@),
    {
        proof {
            let op = self@.ops[ticket as int];
            assert(self@.op_ok(op));
        }
        match self.ops[ticket].pc {
            Pc::Lock => {
                if !self.clearing {
                    self.clearing = true;
                    proof {
                        self.stage@ = Stage::Locked;
                    }
                    self.ops[ticket].pc = Pc::Swap;
                }
            },
            Pc::Swap => {
                match self.tail {
                    None => {
                        self.ops[ticket].pc = Pc::HandOver;
                    },
                    Some(block) => {
                        self.tail = None;
                        proof {
                            self.detached@ = self.attached@;
                            self.attached@ = Seq::empty();
                            self.stage@ = Stage::Swapped;
                        }
                        self.ops[ticket].pc = Pc::Flip { block };
                    },
                }
            },
            Pc::Flip { block } => {
                let previous: usize = self.gate.flip();
                proof {
                    self.stage@ = Stage::Draining { previous };
                }
                self.ops[ticket].pc = Pc::Drain { previous, block };
            },
            Pc::Drain { previous, block } => {
                if self.gate.is_drained(previous) {
                    proof {
                        self.stage@ = Stage::Owned;
                    }
                    self.ops[ticket].pc = Pc::Collect { head: Some(block) };
                }
            },
            Pc::Collect { head } => {
                match head {
                    None => {
                        proof {
                            self.stage@ = Stage::Locked;
                        }
                        self.ops[ticket].pc = Pc::HandOver;
                    },
                    Some(address) => {
                        proof {
                            assert(self@.detached.contains(address));
                            lemma_list_next(self@, self@.detached, address);
                        }
                        let block: Block<T> = self.heap.release(address);
                        proof {
                            self.detached@ = self.detached@.drop_first();
                        }
                        let ghost view = block@;
                        self.ops[ticket].pc = Pc::Collect { head: block.next() };
                        self.ops[ticket].taken.push(block);
                        proof {
                            let op = old(self)@.ops[ticket as int];
                            assert(self.ops[ticket as int]@.taken =~= op.taken.push(view));
                        }
                    },
                }
            },
            Pc::Unlock => {
                self.clearing = false;
                proof {
                    self.stage@ = Stage::Open;
                }
                self.ops[ticket].pc = Pc::Done { answer: None };
            },
            _ => {},
        }
        proof {
            assert(self@ =~= old(self)@.next(ticket as int, old(self).heap.frontier()));
            Self::lemma_stepped(*old(self), *self, ticket);
        }
    }

    /// Tells whether there is a ticket for one more operation.
    pub fn may_begin(&self) -> (may: bool)
        requires
            self.wf(),
        ensures
            may == self.has_ticket(),
    {
        let ticket: usize = self.find_ticket();
        ticket < self.ops.len() || ticket < COUNT_MASK
    }

    /// Finds an idle ticket, or the next new one.
    fn find_ticket(&self) -> (ticket: usize)
        requires
            self.wf(),
        ensures
            ticket <= self@.ops.len(),
            ticket < self@.ops.len() ==> self@.ops[ticket as int] == OpView::<T>::idle(),
            ticket == self@.ops.len() ==> forall|i: int|
                0 <= i < self@.ops.len() ==> #[trigger] self@.ops[i] != OpView::<T>::idle(),
    {
        let mut ticket: usize = 0;
        while ticket < self.ops.len()
            invariant
                self.wf(),
                ticket <= self.ops.len(),
                forall|i: int|
                    0 <= i < ticket ==> #[trigger] self@.ops[i] != OpView::<T>::idle(),
            decreases self.ops.len() - ticket,
        {
            if self.ops[ticket].pc == Pc::Idle && self.ops[ticket].task == Task::Push {
                proof {
                    assert(self@.op_ok(self@.ops[ticket as int]));
                    assert(self@.ops[ticket as int] =~= OpView::<T>::idle());
                }
                return ticket;
            }
            ticket += 1;
        }
        ticket
    }

    /// Starts an operation.
    fn begin(&mut self, task: Task, value: Option<T>) -> (ticket: usize)
        requires
            old(self).wf(),
            old(self).has_ticket(),
            value is Some <==> task == Task::Push,
        ensures
            final(self).wf(),
            ticket <= old(self)@.ops.len(),
            ticket < old(self)@.ops.len() ==> old(self)@.ops[ticket as int]
                == OpView::<T>::idle(),
            final(self)@ == old(self)@.begin(ticket as int, task, value),
            final(self)@.total() == old(self)@.total().add(in_slot()(value)),
    {
        let ticket: usize = self.find_ticket();
        let pc: Pc = match task {
            Task::Clear => Pc::Lock,
            _ => Pc::Guess,
        };
        let op = Op { task, pc, value, taken: Vec::new() };
        proof {
            lemma_begin(self@, ticket as int, task, value);
            law_begin_adds_value(self@, ticket as int, task, value);
            assert(op@ =~= OpView::start(task, value));
        }
        if ticket < self.ops.len() {
            self.ops[ticket] = op;
        } else {
            self.ops.push(op);
        }
        proof {
            assert(self@ =~= old(self)@.begin(ticket as int, task, value));
        }
        ticket
    }

    /// Starts pushing a value.
    pub fn begin_push(&mut self, value: T) -> (ticket: usize)
        requires
            old(self).wf(),
            old(self).has_ticket(),
        ensures
            final(self).wf(),
            ticket <= old(self)@.ops.len(),
            ticket < old(self)@.ops.len() ==> old(self)@.ops[ticket as int]
                == OpView::<T>::idle(),
            final(self)@ == old(self)@.begin(ticket as int, Task::Push, Some(value)),
            final(self)@.total() == old(self)@.total().insert(value),
    {
        let ticket: usize = self.begin(Task::Push, Some(value));
        proof {
            assert(self@.total() =~= old(self)@.total().insert(value));
        }
        ticket
    }

    /// Starts finding out whether there are values.
    pub fn begin_is_empty(&mut self) -> (ticket: usize)
        requires
            old(self).wf(),
            old(self).has_ticket(),
        ensures
            final(self).wf(),
            ticket <= old(self)@.ops.len(),
            ticket < old(self)@.ops.len() ==> old(self)@.ops[ticket as int]
                == OpView::<T>::idle(),
            final(self)@ == old(self)@.begin(ticket as int, Task::IsEmpty, None),
            final(self)@.total() == old(self)@.total(),
    {
        let ticket: usize = self.begin(Task::IsEmpty, None);
        proof {
            assert(self@.total() =~= old(self)@.total());
        }
        ticket
    }

    /// Starts reading the values.
    pub fn begin_read(&mut self) -> (ticket: usize)
        requires
            old(self).wf(),
            old(self).has_ticket(),
        ensures
            final(self).wf(),
            ticket <= old(self)@.ops.len(),
            ticket < old(self)@.ops.len() ==> old(self)@.ops[ticket as int]
                == OpView::<T>::idle(),
            final(self)@ == old(self)@.begin(ticket as int, Task::Read, None),
            final(self)@.total() == old(self)@.total(),
    {
        let ticket: usize = self.begin(Task::Read, None);
        proof {
            assert(self@.total() =~= old(self)@.total());
        }
        ticket
    }

    /// Starts taking the values out.
    pub fn begin_clear(&mut self) -> (ticket: usize)
        requires
            old(self).wf(),
            old(self).has_ticket(),
        ensures
            final(self).wf(),
            ticket <= old(self)@.ops.len(),
            ticket < old(self)@.ops.len() ==> old(self)@.ops[ticket as int]
                == OpView::<T>::idle(),
            final(self)@ == old(self)@.begin(ticket as int, Task::Clear, None),
            final(self)@.total() == old(self)@.total(),
    {
        let ticket: usize = self.begin(Task::Clear, None);
        proof {
            assert(self@.total() =~= old(self)@.total());
        }
        ticket
    }

    /// Takes one step of an operation.
    pub fn step(&mut self, ticket: usize) -> (result: Progress)
        requires
            old(self).wf(),
            ticket < old(self)@.ops.len(),
        ensures
            final(self).wf(),
            old(self).steps_to(ticket, final(self)@),
            result == progress(old(self)@, final(self)@, ticket as int),
            final(self)@.total() == old(self)@.total(),
    {
        let before: Pc = self.ops[ticket].pc;
        match before {
            Pc::Guess => self.enter(ticket),
            Pc::Arrive { .. } => self.enter(ticket),
            Pc::Undo { .. } => self.enter(ticket),
            Pc::LoadTail { .. } => self.load_tail(ticket),
            Pc::Allocate { .. } => self.make_block(ticket),
            Pc::Grow { .. } => self.make_block(ticket),
            Pc::Install { .. } => self.attach_block(ticket),
            Pc::Extend { .. } => self.attach_block(ticket),
            Pc::Claim { .. } => self.write_slot(ticket),
            Pc::Fill { .. } => self.write_slot(ticket),
            Pc::Publish { .. } => self.write_slot(ticket),
            Pc::ProbeTail { .. } => self.probe(ticket),
            Pc::ProbeLink { .. } => self.probe(ticket),
            Pc::ProbeNext { .. } => self.probe(ticket),
            Pc::Measure { .. } => self.visit(ticket),
            Pc::Compare { .. } => self.visit(ticket),
            Pc::Deliver { .. } => self.visit(ticket),
            Pc::Advance { .. } => self.visit(ticket),
            Pc::Exit { .. } => self.exit(ticket),
            Pc::Lock => self.take_list(ticket),
            Pc::Swap => self.take_list(ticket),
            Pc::Flip { .. } => self.take_list(ticket),
            Pc::Drain { .. } => self.take_list(ticket),
            Pc::Collect { .. } => self.take_list(ticket),
            Pc::Unlock => self.take_list(ticket),
            Pc::Idle => {
                proof {
                    Self::lemma_stepped(*old(self), *self, ticket);
                }
            },
            Pc::Done { .. } => {
                proof {
                    Self::lemma_stepped(*old(self), *self, ticket);
                }
            },
            Pc::HandOver => {
                proof {
                    Self::lemma_stepped(*old(self), *self, ticket);
                }
            },
        }
        proof {
            let fresh = choose|fresh: usize| #[trigger]
                old(self)@.vacant(fresh) && self@ == old(self)@.next(ticket as int, fresh);
            law_step_keeps_values(old(self)@, ticket as int, fresh);
        }
        match (before, self.ops[ticket].pc) {
            (_, Pc::Idle) => Progress::Finished,
            (_, Pc::Done { .. }) => Progress::Finished,
            (_, Pc::Deliver { .. }) => Progress::Visiting,
            (_, Pc::HandOver) => Progress::HandingOver,
            (Pc::Compare { .. }, Pc::Measure { .. }) => Progress::Waiting,
            (Pc::Lock, Pc::Lock) => Progress::Waiting,
            (Pc::Drain { .. }, Pc::Drain { .. }) => Progress::Waiting,
            _ => Progress::Running,
        }
    }

    /// Gets the data of the block that an operation visits.
    pub fn visited(&self, ticket: usize) -> (data: &[T])
        requires
            self.wf(),
            ticket < self@.ops.len(),
            self@.ops[ticket as int].pc is Deliver,
        ensures
            data@ == self@.block(self@.ops[ticket as int].pc.touches()->0).data(),
    {
        proof {
            let op = self@.ops[ticket as int];
            assert(self@.op_ok(op));
            lemma_touchable(self@, op.pc.entered()->0, op.pc.touches()->0);
        }
        match self.ops[ticket].pc {
            Pc::Deliver { block, .. } => self.heap.block(block).data(),
            _ => vstd::pervasive::unreached(),
        }
    }

    /// Has an operation that visits a block visit no more of them, so that it exits with its next
    /// step.
    pub fn abandon(&mut self, ticket: usize)
        requires
            old(self).wf(),
            ticket < old(self)@.ops.len(),
            old(self)@.ops[ticket as int].pc is Deliver,
        ensures
            final(self).wf(),
            final(self)@ == old(self)@.abandon(ticket as int),
            final(self)@.total() == old(self)@.total(),
    {
        proof {
            lemma_abandon(self@, ticket as int);
            law_abandon_keeps_values(self@, ticket as int);
        }
        if let Pc::Deliver { phase, .. } = self.ops[ticket].pc {
            self.ops[ticket].pc = Pc::Exit { phase, answer: None };
        }
        proof {
            assert(self@ =~= old(self)@.abandon(ticket as int));
        }
    }

    /// Hands over the blocks that a clearing operation has taken, newest first.  None of them has
    /// writes in flight.
    pub fn hand_over(&mut self, ticket: usize) -> (blocks: Vec<Block<T>>)
        requires
            old(self).wf(),
            ticket < old(self)@.ops.len(),
            old(self)@.ops[ticket as int].pc is HandOver,
        ensures
            final(self).wf(),
            final(self)@ == old(self)@.hand_over(ticket as int),
            blocks@.map_values(|block: Block<T>| block@) == old(self)@.ops[ticket as int].taken,
            forall|k: int| 0 <= k < blocks.len() ==> (#[trigger] blocks[k]).wf(),
            forall|k: int| 0 <= k < blocks.len() ==> (#[trigger] blocks[k])@.quiesced(),
            final(self)@.total().add(gather(old(self)@.ops[ticket as int].taken, in_block()))
                == old(self)@.total(),
    {
        proof {
            lemma_hand_over(self@, ticket as int);
            law_hand_over_removes_values(self@, ticket as int);
            assert(self@.op_ok(self@.ops[ticket as int]));
            assert(self.ops[ticket as int].wf());
        }
        let mut blocks: Vec<Block<T>> = Vec::new();
        std::mem::swap(&mut blocks, &mut self.ops[ticket].taken);
        self.ops[ticket].pc = Pc::Unlock;
        proof {
            assert(self.ops[ticket as int]@.taken =~= Seq::empty());
            assert(self@ =~= old(self)@.hand_over(ticket as int));
            let taken = old(self)@.ops[ticket as int].taken;
            assert(blocks@.map_values(|block: Block<T>| block@) =~= taken);
            assert forall|k: int| 0 <= k < blocks.len() implies (
            #[trigger] blocks[k])@.quiesced() by {
                assert(taken[k] == blocks[k]@);
                assert(taken[k].valid());
            }
        }
        blocks
    }

    /// Gives back the ticket of a finished operation, and gets its answer, if it has one.
    pub fn finish(&mut self, ticket: usize) -> (answer: Option<bool>)
        requires
            old(self).wf(),
            ticket < old(self)@.ops.len(),
            old(self)@.ops[ticket as int].pc is Done,
        ensures
            final(self).wf(),
            final(self)@ == old(self)@.finish(ticket as int),
            old(self)@.ops[ticket as int].pc == (Pc::Done { answer }),
            final(self)@.total() == old(self)@.total(),
    {
        proof {
            lemma_finish(self@, ticket as int);
            law_finish_keeps_values(self@, ticket as int);
            assert(self@.op_ok(self@.ops[ticket as int]));
        }
        let answer: Option<bool> = match self.ops[ticket].pc {
            Pc::Done { answer } => answer,
            _ => None,
        };
        let idle = Op { task: Task::Push, pc: Pc::Idle, value: None, taken: Vec::new() };
        proof {
            assert(idle@ =~= OpView::<T>::idle());
        }
        self.ops[ticket] = idle;
        proof {
            assert(self@ =~= old(self)@.finish(ticket as int));
        }
        answer
    }

    /// Loads the most recent block.
    pub fn tail(&self) -> (tail: Option<usize>)
        ensures
            tail == self@.tail,
    {
        self.tail
    }

    /// Looks at an allocated block.
    pub fn block(&self, address: usize) -> (block: &Block<T>)
        requires
            self.wf(),
            self@.has(address),
        ensures
            block.wf(),
            block@ == self@.block(address),
    {
        self.heap.block(address)
    }

    /// What is in order about a stripe.
    pub proof fn lemma_wf(&self)
        requires
            self.wf(),
        ensures
            self@.inv(),
            self@.heap.len() <= usize::MAX,
    {
        self.heap.lemma_frontier();
    }
}

} // verus!
