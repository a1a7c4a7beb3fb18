//! Operations on a stripe that nobody else is using.
use crate::alone::{
    clear_alone, clear_left, data_of, law_push_alone_finishes, lemma_clear_alone, lemma_push_alone,
    others_idle, push_alone, push_left, with_pushed,
};
use crate::backoff::pause;
use crate::block::{lemma_quiesced, Block};
use crate::calls::Calls;
use crate::sealed::may_be_called;
use crate::gate::lemma_word_size;
use crate::laws::law_quiet;
use crate::model::OpView;
use crate::protocol::lemma_list_next;
use crate::stripe::{Progress, Stripe};
use crossbeam_utils::Backoff;
use vstd::prelude::*;

verus! {

/// Whether a function has been called on a slice with the given elements, and has returned.  This
/// neither counts the calls nor says in what order they were made; for that, see
/// [`Calls::made`].
pub open spec fn called_on<T, F: FnMut(&[T])>(f: F, data: Seq<T>) -> bool {
    exists|slice: &[T]| #[trigger] slice@ == data && call_ensures(f, (slice,), ())
}

/// Whether no block has data.
pub open spec fn holds_nothing<T>(contents: Seq<Seq<T>>) -> bool {
    forall|k: int| 0 <= k < contents.len() ==> #[trigger] contents[k].len() == 0
}

impl<T> Stripe<T> {
    /// Whether the stripe is in order and no operation is in flight.
    pub open spec fn idle(&self) -> bool {
        self.wf() && self@.quiet()
    }

    /// Pushes a value into this stripe.
    pub fn push(&mut self, value: T)
        requires
            old(self).idle(),
        ensures
            final(self).idle(),
            final(self)@.contents() == with_pushed(old(self)@.contents(), value),
            final(self)@.phase == old(self)@.phase,
    {
        let ghost contents = self@.contents();
        proof {
            self.lemma_wf();
            if self@.ops.len() > 0 {
                assert(self@.ops[0] == OpView::<T>::idle());
            }
            lemma_word_size();
            assert(self.has_ticket());
        }
        let ticket: usize = self.begin_push(value);
        proof {
            self.lemma_wf();
            assert(self@.contents() =~= contents);
            assert(others_idle(self@, ticket as int));
        }
        let mut result = Progress::Running;
        while result != Progress::Finished
            invariant
                self.wf(),
                push_alone(self@, ticket as int, contents, value),
                self@.phase == old(self)@.phase,
                result == Progress::Finished <==> self@.ops[ticket as int].pc is Done,
            decreases push_left(self@, ticket as int),
        {
            let ghost before = self@;
            result = self.step(ticket);
            proof {
                self.lemma_wf();
                let fresh = choose|fresh: usize| #[trigger]
                    before.vacant(fresh) && self@ == before.next(ticket as int, fresh);
                lemma_push_alone(before, ticket as int, fresh, contents, value);
                law_push_alone_finishes(before, ticket as int, fresh);
            }
        }
        self.finish(ticket);
        proof {
            assert(self@.contents() =~= with_pushed(contents, value));
        }
    }

    /// Takes the current list of blocks out of the stripe, newest first.
    ///
    /// Once this method returns, no other operation can reach the blocks, and none of them has
    /// writes in flight.
    pub fn detach(&mut self) -> (blocks: Vec<Block<T>>)
        requires
            old(self).idle(),
        ensures
            final(self).idle(),
            final(self)@.contents() == Seq::<Seq<T>>::empty(),
            final(self)@.phase == if old(self)@.contents().len() == 0 {
                old(self)@.phase as int
            } else {
                1 - old(self)@.phase
            },
            blocks.len() == old(self)@.contents().len(),
            forall|k: int|
                0 <= k < blocks.len() ==> (#[trigger] blocks[k]).wf() && blocks[k]@.quiesced()
                    && blocks[k]@.data() == old(self)@.contents()[k],
    {
        let ghost contents = self@.contents();
        proof {
            self.lemma_wf();
            if self@.ops.len() > 0 {
                assert(self@.ops[0] == OpView::<T>::idle());
            }
            lemma_word_size();
            assert(self.has_ticket());
        }
        let ticket: usize = self.begin_clear();
        proof {
            self.lemma_wf();
            assert(self@.contents() =~= contents);
            assert(others_idle(self@, ticket as int));
        }
        // Every operation that could have observed the detached blocks has to exit before they
        // can be taken.
        let backoff = Backoff::new();
        let mut result = Progress::Running;
        while result != Progress::HandingOver
            invariant
                self.wf(),
                clear_alone(self@, ticket as int, contents, old(self)@.phase),
                clear_left(self@, ticket as int) >= 2,
                result == Progress::HandingOver <==> self@.ops[ticket as int].pc is HandOver,
            decreases clear_left(self@, ticket as int),
        {
            let ghost before = self@;
            result = self.step(ticket);
            proof {
                let fresh = choose|fresh: usize| #[trigger]
                    before.vacant(fresh) && self@ == before.next(ticket as int, fresh);
                lemma_clear_alone(before, ticket as int, fresh, contents, old(self)@.phase);
            }
            pause(result, &backoff);
        }
        let ghost taken = self@.ops[ticket as int].taken;
        let blocks: Vec<Block<T>> = self.hand_over(ticket);
        proof {
            self.lemma_wf();
            assert forall|k: int| 0 <= k < blocks.len() implies (#[trigger] blocks[k]).wf()
                && blocks[k]@.quiesced() && blocks[k]@.data() == contents[k] by {
                assert(taken[k] == blocks[k]@);
                assert(data_of(taken)[k] == contents[k]);
            }
        }
        self.step(ticket);
        self.finish(ticket);
        proof {
            assert(self@.contents() =~= Seq::<Seq<T>>::empty());
        }
        blocks
    }

    /// Gets the length of the block that came before a block, if there is one.
    pub fn next_len(&self, block: &Block<T>) -> (len: usize)
        requires
            self.wf(),
            block@.next matches Some(next) ==> self@.has(next),
        ensures
            len == match block@.next {
                None => 0,
                Some(next) => self@.block(next).len(),
            },
    {
        match block.next() {
            None => 0,
            Some(next) => self.block(next).len(),
        }
    }

    /// Whether or not this stripe has no values in it.
    pub fn is_empty(&self) -> (empty: bool)
        requires
            self.idle(),
        ensures
            empty == holds_nothing(self@.contents()),
    {
        proof {
            self.lemma_wf();
            law_quiet(self@);
        }
        match self.tail() {
            None => true,
            Some(tail) => {
                proof {
                    let s = self@;
                    assert(s.attached[0] == tail);
                    lemma_list_next(s, s.attached, tail);
                    if let Some(next) = s.block(tail).next {
                        lemma_list_next(s, s.attached, next);
                    }
                    assert(s.contents()[0] == s.block(tail).data());
                    assert(s.linked(s.attached, 0));
                    if s.attached.len() > 1 {
                        let next = s.attached[1];
                        assert(s.linked(s.attached, 1));
                        assert(s.block(next).valid());
                        lemma_quiesced(s.block(next));
                        assert(s.contents()[1] == s.block(next).data());
                        assert(s.contents()[1].len() > 0);
                    }
                }
                // The block that came before has to be looked at as well, in case the most recent
                // one is simply a fresh block that has not been written to yet.
                let block: &Block<T> = self.block(tail);
                block.len() == 0 && self.next_len(block) == 0
            },
        }
    }

    /// Gets the data of all blocks of this stripe, newest block first.
    pub fn blocks(&self) -> (blocks: Vec<&[T]>)
        requires
            self.idle(),
        ensures
            blocks.len() == self@.contents().len(),
            forall|k: int| 0 <= k < blocks.len() ==> (#[trigger] blocks[k])@ == self@.contents()[k],
    {
        let mut blocks: Vec<&[T]> = Vec::new();
        let backoff = Backoff::new();
        let mut cursor: Option<usize> = self.tail();
        proof {
            self.lemma_wf();
            law_quiet(self@);
        }
        let ghost list = self@.attached;
        while cursor.is_some()
            invariant
                self.idle(),
                self@.inv(),
                list == self@.attached,
                blocks.len() <= list.len(),
                cursor == if blocks.len() < list.len() {
                    Some(list[blocks.len() as int])
                } else {
                    None
                },
                forall|k: int|
                    0 <= k < blocks.len() ==> (#[trigger] blocks[k])@ == self@.contents()[k],
                forall|address: usize| #[trigger]
                    self@.has(address) ==> self@.block(address).quiesced(),
            decreases list.len() - blocks.len(),
        {
            proof {
                assert(self@.linked(list, blocks.len() as int));
            }
            let block: &Block<T> = self.block(cursor.unwrap());
            // A block is looked at only when it is quiesced, to see any writes in flight.  There
            // are none while the stripe is idle, so this does not get to wait.
            while !block.is_quiesced()
                invariant
                    block.wf(),
                    block@.quiesced(),
                decreases 0int,
            {
                backoff.snooze();
            }
            blocks.push(block.data());
            cursor = block.next();
        }
        blocks
    }

    /// Looks at the values of this stripe, invoking the callback once for each block, newest block
    /// first.
    pub fn data_with<F>(&self, calls: &mut Calls<T, F>) where F: FnMut(&[T])
        requires
            self.idle(),
            forall|slice: &[T]|
                self@.contents().contains(slice@) ==> #[trigger] may_be_called(
                    old(calls).function(),
                    slice,
                ),
        ensures
            final(calls).function() == old(calls).function(),
            final(calls).made() == old(calls).made() + self@.contents(),
            forall|k: int|
                0 <= k < self@.contents().len() ==> called_on(
                    old(calls).function(),
                    #[trigger] self@.contents()[k],
                ),
    {
        let blocks: Vec<&[T]> = self.blocks();
        proof {
            assert(blocks@.map_values(|slice: &[T]| slice@) =~= self@.contents());
            assert forall|k: int| 0 <= k < blocks.len() implies may_be_called(
                calls.function(),
                #[trigger] blocks[k],
            ) by {
                assert(self@.contents()[k] == blocks[k]@);
            }
        }
        visit_blocks(&blocks, calls);
        assert forall|k: int| 0 <= k < self@.contents().len() implies called_on(
            old(calls).function(),
            #[trigger] self@.contents()[k],
        ) by {
            assert(blocks[k]@ == self@.contents()[k]);
        }
    }

    /// Clears this stripe, invoking the callback once for each block, newest block first.
    pub fn clear_with<F>(&mut self, calls: &mut Calls<T, F>) where F: FnMut(&[T])
        requires
            old(self).idle(),
            forall|slice: &[T]|
                old(self)@.contents().contains(slice@) ==> #[trigger] may_be_called(
                    old(calls).function(),
                    slice,
                ),
        ensures
            final(self).idle(),
            final(self)@.contents() == Seq::<Seq<T>>::empty(),
            final(self)@.phase == if old(self)@.contents().len() == 0 {
                old(self)@.phase as int
            } else {
                1 - old(self)@.phase
            },
            final(calls).function() == old(calls).function(),
            final(calls).made() == old(calls).made() + old(self)@.contents(),
            forall|k: int|
                0 <= k < old(self)@.contents().len() ==> called_on(
                    old(calls).function(),
                    #[trigger] old(self)@.contents()[k],
                ),
    {
        let detached: Vec<Block<T>> = self.detach();
        let mut slices: Vec<&[T]> = Vec::new();
        let mut k: usize = 0;
        while k < detached.len()
            invariant
                k <= detached.len(),
                slices.len() == k,
                detached.len() == old(self)@.contents().len(),
                forall|j: int|
                    0 <= j < detached.len() ==> (#[trigger] detached[j]).wf()
                        && detached[j]@.data() == old(self)@.contents()[j],
                forall|j: int| 0 <= j < k ==> (#[trigger] slices[j])@ == old(self)@.contents()[j],
            decreases detached.len() - k,
        {
            slices.push(detached[k].data());
            k += 1;
        }
        proof {
            assert(slices@.map_values(|slice: &[T]| slice@) =~= old(self)@.contents());
            assert forall|k: int| 0 <= k < slices.len() implies may_be_called(
                calls.function(),
                #[trigger] slices[k],
            ) by {
                assert(old(self)@.contents()[k] == slices[k]@);
            }
        }
        visit_blocks(&slices, calls);
        assert forall|k: int| 0 <= k < old(self)@.contents().len() implies called_on(
            old(calls).function(),
            #[trigger] old(self)@.contents()[k],
        ) by {
            assert(slices[k]@ == old(self)@.contents()[k]);
        }
    }
}

/// Invokes the callback with the data of each block, once for each block and in the order of the
/// blocks.
pub fn visit_blocks<T, F>(blocks: &Vec<&[T]>, calls: &mut Calls<T, F>) where F: FnMut(&[T])
    requires
        forall|k: int|
            0 <= k < blocks.len() ==> may_be_called(old(calls).function(), #[trigger] blocks[k]),
    ensures
        final(calls).function() == old(calls).function(),
        final(calls).made() == old(calls).made() + blocks@.map_values(|slice: &[T]| slice@),
        forall|k: int|
            0 <= k < blocks.len() ==> called_on(
                old(calls).function(),
                (#[trigger] blocks[k])@,
            ),
{
    let ghost data = blocks@.map_values(|slice: &[T]| slice@);
    let mut k: usize = 0;
    proof {
        assert(calls.made() =~= old(calls).made() + data.take(0));
    }
    while k < blocks.len()
        invariant
            k <= blocks.len(),
            data == blocks@.map_values(|slice: &[T]| slice@),
            calls.function() == old(calls).function(),
            calls.made() == old(calls).made() + data.take(k as int),
            forall|j: int|
                0 <= j < blocks.len() ==> may_be_called(
                    old(calls).function(),
                    #[trigger] blocks[j],
                ),
            forall|j: int| 0 <= j < k ==> called_on(old(calls).function(), (#[trigger] blocks[j])@),
        decreases blocks.len() - k,
    {
        calls.call(blocks[k]);
        proof {
            assert(old(calls).made() + data.take(k + 1) =~= (old(calls).made() + data.take(
                k as int,
            )).push(data[k as int]));
        }
        k += 1;
    }
    proof {
        assert(data.take(k as int) =~= data);
    }
}

} // verus!
