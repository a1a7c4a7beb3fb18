//! The blocks of a stripe, by address.
//!
//! Addresses of released blocks are given out again, so an address by itself does not tell whether
//! it still means the same block.
use crate::block::{Block, BlockView};
use crate::model::heap_with;
use vstd::prelude::*;

verus! {

/// Allocated blocks, by address.
pub struct Heap<T> {
    cells: Vec<Option<Block<T>>>,
    // The addresses at which no block is allocated.
    free: Vec<usize>,
}

spec fn cell<T>() -> spec_fn(Option<Block<T>>) -> Option<BlockView<T>> {
    |cell: Option<Block<T>>|
        match cell {
            None => None,
            Some(block) => Some(block@),
        }
}

impl<T> View for Heap<T> {
    type V = Seq<Option<BlockView<T>>>;

    closed spec fn view(&self) -> Seq<Option<BlockView<T>>> {
        self.cells@.map_values(cell())
    }
}

impl<T> Heap<T> {
    /// The blocks are in order, and the free addresses are exactly those without a block.
    pub closed spec fn wf(&self) -> bool {
        &&& forall|a: int|
            0 <= a < self.cells.len() ==> (#[trigger] self.cells[a] matches Some(block)
                ==> block.wf())
        &&& self.free@.no_duplicates()
        &&& forall|k: int|
            0 <= k < self.free.len() ==> (#[trigger] self.free[k]) < self.cells.len()
                && self.cells[self.free[k] as int] is None
        &&& forall|a: int|
            0 <= a < self.cells.len() && (#[trigger] self.cells[a]) is None
                ==> self.free@.contains(a as usize)
    }

    /// Whether a block is allocated at an address.
    pub open spec fn has(&self, address: usize) -> bool {
        address < self@.len() && self@[address as int] is Some
    }

    /// An address that is not in use yet.
    pub closed spec fn frontier(&self) -> usize {
        self.cells.len()
    }

    /// The address that is not in use yet is the one after the last.
    pub proof fn lemma_frontier(&self)
        ensures
            self.frontier() == self@.len(),
    {
    }

    /// Creates a heap without blocks.
    pub fn new() -> (heap: Self)
        ensures
            heap.wf(),
            heap@ == Seq::<Option<BlockView<T>>>::empty(),
    {
        let heap = Heap { cells: Vec::new(), free: Vec::new() };
        proof {
            assert(heap@ =~= Seq::<Option<BlockView<T>>>::empty());
        }
        heap
    }

    /// Allocates a block, and gives its address.  Addresses of released blocks are given out again
    /// before new ones.
    pub fn allocate(&mut self, block: Block<T>) -> (address: usize)
        requires
            old(self).wf(),
            block.wf(),
        ensures
            final(self).wf(),
            address <= old(self)@.len(),
            !old(self).has(address),
            address == old(self)@.len() ==> forall|a: usize|
                a < old(self)@.len() ==> #[trigger] old(self).has(a),
            final(self)@ == heap_with(old(self)@, address, block@),
    {
        match self.free.pop() {
            Some(address) => {
                self.cells[address] = Some(block);
                proof {
                    let k = old(self).free.len() - 1;
                    assert(old(self).free[k] == address);
                    assert forall|a: int|
                        0 <= a < self.cells.len() && (
                        #[trigger] self.cells[a]) is None implies self.free@.contains(
                        a as usize,
                    ) by {
                        assert(old(self).cells[a] is None);
                        let j = choose|j: int|
                            0 <= j < old(self).free.len() && old(self).free[j] == a as usize;
                        assert(self.free[j] == a as usize);
                    }
                    assert forall|j: int| 0 <= j < self.free.len() implies (
                    #[trigger] self.free[j]) < self.cells.len()
                        && self.cells[self.free[j] as int] is None by {
                        assert(old(self).free[j] == self.free[j]);
                        assert(old(self).free[j] != old(self).free[k]);
                    }
                    assert(self@ =~= heap_with(old(self)@, address, block@));
                }
                address
            },
            None => {
                let address: usize = self.cells.len();
                proof {
                    assert forall|a: usize| a < self@.len() implies #[trigger] self.has(a) by {
                        if self.cells[a as int] is None {
                            assert(self.free@.contains(a));
                        }
                    }
                }
                self.cells.push(Some(block));
                proof {
                    assert(self@ =~= heap_with(old(self)@, address, block@));
                    assert forall|a: int|
                        0 <= a < self.cells.len() && (
                        #[trigger] self.cells[a]) is None implies self.free@.contains(
                        a as usize,
                    ) by {
                        assert(old(self).cells[a] is None);
                    }
                }
                address
            },
        }
    }

    /// Releases the block at an address.
    pub fn release(&mut self, address: usize) -> (block: Block<T>)
        requires
            old(self).wf(),
            old(self).has(address),
        ensures
            final(self).wf(),
            block.wf(),
            block@ == old(self)@[address as int]->0,
            final(self)@ == old(self)@.update(address as int, None),
    {
        let cell: Option<Block<T>> = self.cells[address].take();
        self.free.push(address);
        proof {
            assert(self@ =~= old(self)@.update(address as int, None));
            assert forall|a: int|
                0 <= a < self.cells.len() && (#[trigger] self.cells[a]) is None implies self.free@.contains(
                a as usize,
            ) by {
                if a == address {
                    assert(self.free[self.free.len() - 1] == a as usize);
                } else {
                    assert(old(self).cells[a] is None);
                    let j = choose|j: int|
                        0 <= j < old(self).free.len() && old(self).free[j] == a as usize;
                    assert(self.free[j] == a as usize);
                }
            }
            assert forall|j: int| 0 <= j < self.free.len() implies (#[trigger] self.free[j])
                < self.cells.len() && self.cells[self.free[j] as int] is None by {
                if j < old(self).free.len() {
                    assert(old(self).free[j] == self.free[j]);
                }
            }
            assert(self.free@.no_duplicates()) by {
                assert forall|j: int| 0 <= j < old(self).free.len() implies old(self).free[j]
                    != address by {
                    assert(old(self).cells[old(self).free[j] as int] is None);
                }
            }
        }
        cell.unwrap()
    }

    /// Looks at the block at an address.
    pub fn block(&self, address: usize) -> (block: &Block<T>)
        requires
            self.wf(),
            self.has(address),
        ensures
            block.wf(),
            block@ == self@[address as int]->0,
    {
        self.cells[address].as_ref().unwrap()
    }

    /// Gets hold of the block at an address to change it.
    pub fn block_mut(&mut self, address: usize) -> (block: &mut Block<T>)
        requires
            old(self).wf(),
            old(self).has(address),
        ensures
            block.wf(),
            block@ == old(self)@[address as int]->0,
            final(block).wf() ==> final(self).wf(),
            final(self)@ == heap_with(old(self)@, address, final(block)@),
    {
        match &mut self.cells[address] {
            Some(block) => block,
            None => vstd::pervasive::unreached(),
        }
    }
}

} // verus!
