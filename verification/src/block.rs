//! A block: a small buffer whose slots are claimed, written and published one by one.
//!
//! A writer claims a slot by bumping the write index, writes its value into the slot, and then
//! publishes the slot by raising the slot's flag.  Writers may be at different points of this at
//! the same time, so slots can become ready out of order.  What a reader may look at is the leading
//! run of ready slots.
use vstd::prelude::*;

verus! {

/// The number of slots of a block, which is the number of bits of the target's pointer width.
pub const BLOCK_SIZE: usize = usize::BITS as usize;

/// A block has as many slots as a pointer has bits.
pub proof fn law_block_size()
    ensures
        BLOCK_SIZE == usize::BITS,
        BLOCK_SIZE == 32 || BLOCK_SIZE == 64,
{
}

/// The length of the leading run of set flags.
pub open spec fn leading_run(flags: Seq<bool>) -> nat
    decreases flags.len(),
{
    if flags.len() == 0 || !flags[0] {
        0
    } else {
        1 + leading_run(flags.drop_first())
    }
}

/// The leading run ends at the first flag that is not set.
pub proof fn lemma_leading_run(flags: Seq<bool>)
    ensures
        leading_run(flags) <= flags.len(),
        forall|j: int| 0 <= j < leading_run(flags) ==> flags[j],
        leading_run(flags) < flags.len() ==> !flags[leading_run(flags) as int],
    decreases flags.len(),
{
    if flags.len() > 0 && flags[0] {
        let rest = flags.drop_first();
        lemma_leading_run(rest);
        assert forall|j: int| 0 <= j < leading_run(flags) implies flags[j] by {
            if j > 0 {
                assert(rest[j - 1]);
            }
        }
        if leading_run(flags) < flags.len() {
            assert(rest[leading_run(rest) as int] == flags[leading_run(flags) as int]);
        }
    }
}

/// A run of set flags that a flag that is not set, or the end, follows is the leading run.
pub proof fn lemma_leading_run_is(flags: Seq<bool>, n: nat)
    requires
        n <= flags.len(),
        forall|j: int| 0 <= j < n ==> flags[j],
        n < flags.len() ==> !flags[n as int],
    ensures
        leading_run(flags) == n,
{
    lemma_leading_run(flags);
    if leading_run(flags) < n {
        assert(flags[leading_run(flags) as int]);
    }
}

/// Raising flags never shortens the leading run.
pub proof fn lemma_leading_run_grows(before: Seq<bool>, after: Seq<bool>)
    requires
        before.len() == after.len(),
        forall|j: int| 0 <= j < before.len() && before[j] ==> after[j],
    ensures
        leading_run(before) <= leading_run(after),
{
    lemma_leading_run(before);
    lemma_leading_run(after);
    if leading_run(after) < leading_run(before) {
        assert(before[leading_run(after) as int]);
    }
}

/// What a block holds.
#[verifier::ext_equal]
pub struct BlockView<T> {
    /// The number of times a slot was asked for, which is also the next slot to be claimed.
    pub write: nat,
    /// Which slots have been published.
    pub ready: Seq<bool>,
    /// The values that have been written, published or not.
    pub slots: Seq<Option<T>>,
    /// The block that came before this one, by its address.
    pub next: Option<usize>,
}

impl<T> BlockView<T> {
    /// A block in which no slot has been claimed yet.
    pub open spec fn fresh(next: Option<usize>) -> Self {
        BlockView {
            write: 0,
            ready: Seq::new(BLOCK_SIZE as nat, |j: int| false),
            slots: Seq::new(BLOCK_SIZE as nat, |j: int| None),
            next,
        }
    }

    /// Only written slots are ready, and only claimed slots are written.
    pub open spec fn valid(self) -> bool {
        &&& self.ready.len() == BLOCK_SIZE
        &&& self.slots.len() == BLOCK_SIZE
        &&& forall|j: int| 0 <= j < BLOCK_SIZE && #[trigger] self.ready[j] ==> self.slots[j] is Some
        &&& forall|j: int|
            self.write <= j < BLOCK_SIZE ==> #[trigger] self.slots[j] is None && !self.ready[j]
    }

    /// The number of slots that have been claimed.
    pub open spec fn claimed(self) -> nat {
        if self.write < BLOCK_SIZE {
            self.write
        } else {
            BLOCK_SIZE as nat
        }
    }

    /// The number of slots that a reader may look at.
    pub open spec fn len(self) -> nat {
        leading_run(self.ready)
    }

    /// The values that a reader may look at, in slot order.
    pub open spec fn data(self) -> Seq<T> {
        Seq::new(self.len(), |j: int| self.slots[j]->0)
    }

    /// Whether no claimed slot is still to be published.
    pub open spec fn quiesced(self) -> bool {
        forall|j: int| 0 <= j < self.claimed() ==> #[trigger] self.ready[j]
    }

    /// After one more slot has been asked for.
    pub open spec fn with_claim(self) -> Self {
        BlockView { write: self.write + 1, ..self }
    }

    /// After a value has been written into a slot.
    pub open spec fn with_value(self, index: int, value: T) -> Self {
        BlockView { slots: self.slots.update(index, Some(value)), ..self }
    }

    /// After a slot has been published.
    pub open spec fn with_ready(self, index: int) -> Self {
        BlockView { ready: self.ready.update(index, true), ..self }
    }

    /// Whether this block can have become `later`: claims are not taken back, flags are not
    /// lowered, and a written slot is never written again.
    pub open spec fn grows_to(self, later: Self) -> bool {
        &&& self.write <= later.write
        &&& self.ready.len() == later.ready.len()
        &&& self.slots.len() == later.slots.len()
        &&& self.next == later.next
        &&& forall|j: int| 0 <= j < self.ready.len() && #[trigger] self.ready[j] ==> later.ready[j]
        &&& forall|j: int|
            0 <= j < self.slots.len() && #[trigger] self.slots[j] is Some ==> later.slots[j]
                == self.slots[j]
    }
}

/// In a valid block, the leading run covers all claimed slots exactly when the block is quiesced.
pub proof fn lemma_quiesced<T>(block: BlockView<T>)
    requires
        block.valid(),
    ensures
        block.len() <= block.claimed(),
        block.quiesced() <==> block.len() == block.claimed(),
        forall|j: int| 0 <= j < block.len() ==> block.slots[j] is Some,
{
    lemma_leading_run(block.ready);
    assert forall|j: int| 0 <= j < block.len() implies block.slots[j] is Some by {
        assert(block.ready[j]);
    }
    if block.len() > block.claimed() {
        assert(block.ready[block.claimed() as int]);
        assert(block.slots[block.claimed() as int] is None);
    }
    if block.quiesced() && block.len() < block.claimed() {
        assert(block.ready[block.len() as int]);
    }
}

/// The numbers that describe a block to somebody who debugs it.
pub struct BlockSummary {
    pub block_size: usize,
    pub write: usize,
    pub len: usize,
    pub has_next: bool,
}

/// Discrete chunk of values.
pub struct Block<T> {
    // Write index.
    write: usize,
    // Per-slot "ready" flags.
    ready: Vec<bool>,
    // The values of the leading run of ready slots.
    settled: Vec<T>,
    // The values of the other written slots, by slot.
    parked: Vec<Option<T>>,
    // The block that came before this one.
    next: Option<usize>,
}

impl<T> View for Block<T> {
    type V = BlockView<T>;

    closed spec fn view(&self) -> BlockView<T> {
        BlockView {
            write: self.write as nat,
            ready: self.ready@,
            slots: Seq::new(
                self.parked.len() as nat,
                |j: int|
                    if j < self.settled.len() {
                        Some(self.settled[j])
                    } else {
                        self.parked[j]
                    },
            ),
            next: self.next,
        }
    }
}

impl<T> Block<T> {
    /// The values of the leading run of ready slots are settled, and no others.
    pub closed spec fn wf(&self) -> bool {
        &&& self@.valid()
        &&& self.settled.len() == leading_run(self.ready@)
        &&& forall|j: int| 0 <= j < self.settled.len() ==> #[trigger] self.parked[j] is None
    }

    /// What is in order about a block.
    pub proof fn lemma_wf(&self)
        requires
            self.wf(),
        ensures
            self@.valid(),
            self@.write <= usize::MAX,
    {
    }

    /// Creates a new [`Block`].
    pub fn new() -> (block: Self)
        ensures
            block.wf(),
            block@ == BlockView::<T>::fresh(None),
    {
        Block::after(None)
    }

    /// Creates a new [`Block`] that comes after another one.
    pub fn after(next: Option<usize>) -> (block: Self)
        ensures
            block.wf(),
            block@ == BlockView::<T>::fresh(next),
    {
        let mut ready: Vec<bool> = Vec::new();
        let mut parked: Vec<Option<T>> = Vec::new();
        let mut i: usize = 0;
        while i < BLOCK_SIZE
            invariant
                i <= BLOCK_SIZE,
                ready.len() == i,
                parked.len() == i,
                forall|j: int| 0 <= j < i ==> !#[trigger] ready[j],
                forall|j: int| 0 <= j < i ==> #[trigger] parked[j] is None,
            decreases BLOCK_SIZE - i,
        {
            ready.push(false);
            parked.push(None);
            i += 1;
        }
        let block = Block { write: 0, ready, settled: Vec::new(), parked, next };
        proof {
            lemma_leading_run_is(block.ready@, 0);
            assert(block@ =~= BlockView::<T>::fresh(next));
        }
        block
    }

    /// Gets the current length of this block.
    pub fn len(&self) -> (len: usize)
        requires
            self.wf(),
        ensures
            len == self@.len(),
            len <= self@.claimed(),
    {
        let mut len: usize = 0;
        while len < BLOCK_SIZE && self.ready[len]
            invariant
                self.wf(),
                len <= BLOCK_SIZE,
                forall|j: int| 0 <= j < len ==> self.ready[j],
            decreases BLOCK_SIZE - len,
        {
            len += 1;
        }
        proof {
            lemma_leading_run_is(self.ready@, len as nat);
            lemma_quiesced(self@);
        }
        len
    }

    /// Whether or not this block is currently quiesced, that is, has no writes in flight.
    pub fn is_quiesced(&self) -> (quiesced: bool)
        requires
            self.wf(),
        ensures
            quiesced == self@.quiesced(),
    {
        proof {
            lemma_quiesced(self@);
        }
        let len: usize = self.len();
        if len == BLOCK_SIZE {
            return true;
        }
        self.claimed() == len
    }

    /// Loads the write index, clamped to the block size: more writers than there are slots may
    /// have asked for one.
    pub fn claimed(&self) -> (claimed: usize)
        requires
            self.wf(),
        ensures
            claimed == self@.claimed(),
    {
        if self.write < BLOCK_SIZE {
            self.write
        } else {
            BLOCK_SIZE
        }
    }

    /// Gets a slice of the data written to this block.
    pub fn data(&self) -> (data: &[T])
        requires
            self.wf(),
        ensures
            data@ == self@.data(),
    {
        proof {
            lemma_quiesced(self@);
            assert(self.settled@ =~= self@.data());
        }
        self.settled.as_slice()
    }

    /// Loads the address of the block that came before this one.
    pub fn next(&self) -> (next: Option<usize>)
        ensures
            next == self@.next,
    {
        self.next
    }

    /// Asks for a slot, and gives the write index as it was.
    pub fn claim(&mut self) -> (index: usize)
        requires
            old(self).wf(),
            old(self)@.write < usize::MAX,
        ensures
            final(self).wf(),
            index == old(self)@.write,
            final(self)@ == old(self)@.with_claim(),
    {
        let index: usize = self.write;
        self.write = index + 1;
        proof {
            assert(self@.slots =~= old(self)@.slots);
        }
        index
    }

    /// Writes a value into a slot that has been claimed and not been written.
    pub fn fill(&mut self, index: usize, value: T)
        requires
            old(self).wf(),
            index < BLOCK_SIZE,
            index < old(self)@.write,
            !old(self)@.ready[index as int],
        ensures
            final(self).wf(),
            final(self)@ == old(self)@.with_value(index as int, value),
    {
        proof {
            lemma_leading_run(self.ready@);
        }
        self.parked[index] = Some(value);
        proof {
            assert(self@ =~= old(self)@.with_value(index as int, value));
        }
    }

    /// Publishes a slot that has been written.
    pub fn publish(&mut self, index: usize)
        requires
            old(self).wf(),
            index < BLOCK_SIZE,
            old(self)@.slots[index as int] is Some,
        ensures
            final(self).wf(),
            final(self)@ == old(self)@.with_ready(index as int),
    {
        self.ready[index] = true;
        let ghost target = old(self)@.with_ready(index as int);
        proof {
            assert(self@ =~= target);
            assert(target.valid()) by {
                assert forall|j: int| target.write <= j < BLOCK_SIZE implies #[trigger] target.slots[j] is None
                    && !target.ready[j] by {
                    assert(old(self)@.slots[j] is None);
                }
            }
            lemma_leading_run(old(self).ready@);
        }
        // The leading run may have grown by more than this slot.
        while self.settled.len() < BLOCK_SIZE && self.ready[self.settled.len()]
            invariant
                self@ == target,
                target.valid(),
                self.settled.len() <= BLOCK_SIZE,
                forall|j: int| 0 <= j < self.settled.len() ==> #[trigger] target.ready[j],
                forall|j: int| 0 <= j < self.settled.len() ==> #[trigger] self.parked[j] is None,
            decreases BLOCK_SIZE - self.settled.len(),
        {
            let slot: usize = self.settled.len();
            let ghost before = *self;
            assert(target.ready[slot as int]);
            assert(target.slots[slot as int] is Some);
            if let Some(value) = self.parked[slot].take() {
                self.settled.push(value);
            }
            assert(self@.slots =~= before@.slots);
        }
        proof {
            lemma_leading_run_is(self.ready@, self.settled.len() as nat);
        }
    }

    /// Pushes a value into this block.
    ///
    /// If the end of the block has been reached, the value is handed back, so that the caller can
    /// attach another block.
    pub fn push(&mut self, value: T) -> (result: Result<(), T>)
        requires
            old(self).wf(),
            old(self)@.write < usize::MAX,
        ensures
            final(self).wf(),
            old(self)@.write < BLOCK_SIZE ==> {
                &&& result == Ok::<(), T>(())
                &&& final(self)@ == old(self)@.with_claim().with_value(
                    old(self)@.write as int,
                    value,
                ).with_ready(old(self)@.write as int)
            },
            old(self)@.write >= BLOCK_SIZE ==> {
                &&& result == Err::<(), T>(value)
                &&& final(self)@ == old(self)@.with_claim()
            },
    {
        let index: usize = self.claim();
        if index >= BLOCK_SIZE {
            return Err(value);
        }
        assert(old(self)@.slots[index as int] is None);
        self.fill(index, value);
        self.publish(index);
        Ok(())
    }

    /// Gets the numbers that describe this block to somebody who debugs it.
    pub fn summary(&self) -> (summary: BlockSummary)
        requires
            self.wf(),
        ensures
            summary.block_size == BLOCK_SIZE,
            summary.write == self@.write,
            summary.len == self@.len(),
            summary.has_next == (self@.next is Some),
    {
        BlockSummary {
            block_size: BLOCK_SIZE,
            write: self.write,
            len: self.len(),
            has_next: self.next.is_some(),
        }
    }
}

/// Pushing into a quiesced block that is not full appends the value to the block's data, and
/// leaves the block quiesced.
pub proof fn law_push_appends<T>(block: BlockView<T>, value: T)
    requires
        block.valid(),
        block.quiesced(),
        block.write < BLOCK_SIZE,
    ensures
        ({
            let after = block.with_claim().with_value(block.write as int, value).with_ready(
                block.write as int,
            );
            after.valid() && after.quiesced() && after.data() == block.data().push(value)
        }),
{
    let after = block.with_claim().with_value(block.write as int, value).with_ready(
        block.write as int,
    );
    lemma_quiesced(block);
    assert(after.valid()) by {
        assert forall|j: int| after.write <= j < BLOCK_SIZE implies #[trigger] after.slots[j] is None
            && !after.ready[j] by {
            assert(block.slots[j] is None);
        }
    }
    assert(after.quiesced()) by {
        assert forall|j: int| 0 <= j < after.claimed() implies #[trigger] after.ready[j] by {
            if j < block.write {
                assert(block.ready[j]);
            }
        }
    }
    lemma_quiesced(after);
    assert(after.data() =~= block.data().push(value));
}

/// What a reader has been given stays as it is while the block grows: the data of a block is a
/// prefix of its later data.
pub proof fn law_data_only_grows<T>(before: BlockView<T>, after: BlockView<T>)
    requires
        before.valid(),
        before.grows_to(after),
    ensures
        before.data().is_prefix_of(after.data()),
{
    lemma_quiesced(before);
    lemma_leading_run_grows(before.ready, after.ready);
    assert(before.data() =~= after.data().subrange(0, before.data().len() as int));
}

/// The length that a scan of the flags finds is the length of the block at the moment of the scan's
/// last load, although the loads are made one after another: `history[k]` are the flags at the
/// moment when flag `k` is loaded, `last` are the flags at the moment of the last load, and flags
/// are only ever raised.
pub proof fn law_scan_is_exact(history: Seq<Seq<bool>>, last: Seq<bool>)
    requires
        history.len() <= last.len(),
        forall|k: int| 0 <= k < history.len() ==> #[trigger] history[k].len() == last.len(),
        forall|k: int, j: int|
            0 <= k < history.len() && 0 <= j < last.len() && #[trigger] history[k][j] ==> last[j],
        forall|k: int| 0 <= k < history.len() ==> #[trigger] history[k][k],
        history.len() < last.len() ==> !last[history.len() as int],
    ensures
        leading_run(last) == history.len(),
{
    assert forall|j: int| 0 <= j < history.len() implies last[j] by {
        assert(history[j][j]);
    }
    lemma_leading_run_is(last, history.len());
}

} // verus!
