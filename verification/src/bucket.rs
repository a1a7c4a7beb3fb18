//! A bucket: stripes that threads push values into.
use crate::alone::with_pushed;
use crate::calls::Calls;
use crate::sealed::may_be_called;
use crate::exclusive::{called_on, holds_nothing};
use crate::order::law_bucket_push_adds_value;
use crate::padded::Padded;
use crate::protocol::lemma_empty;
use crate::stripe::Stripe;
use crate::sums::{lemma_tally_push, tally};
use crate::threads::{is_stripe_count, stripe_count, stripe_index, MAX_STRIPES};
use vstd::prelude::*;

verus! {

/// The data of the blocks of a stripe, newest block first; a stripe that has not been allocated
/// has none.
pub open spec fn stripe_blocks<T>(stripe: Option<Seq<Seq<T>>>) -> Seq<Seq<T>> {
    match stripe {
        None => Seq::empty(),
        Some(blocks) => blocks,
    }
}

/// The data of the blocks of each stripe.
pub open spec fn block_parts<T>(stripes: Seq<Option<Seq<Seq<T>>>>) -> Seq<Seq<Seq<T>>> {
    stripes.map_values(|stripe: Option<Seq<Seq<T>>>| stripe_blocks(stripe))
}

/// The data of the blocks of all stripes, stripe by stripe, and within each stripe newest block
/// first.
pub open spec fn all_blocks<T>(stripes: Seq<Option<Seq<Seq<T>>>>) -> Seq<Seq<T>> {
    block_parts(stripes).flatten()
}

/// The values of all stripes, in the order in which they are visited.
pub open spec fn all_values<T>(stripes: Seq<Option<Seq<Seq<T>>>>) -> Seq<T> {
    all_blocks(stripes).flatten()
}

/// What is left of a stripe that has been cleared.
pub open spec fn cleared<T>(stripe: Option<Seq<Seq<T>>>) -> Option<Seq<Seq<T>>> {
    match stripe {
        None => None,
        Some(_) => Some(Seq::empty()),
    }
}

/// The numbers that describe a bucket to somebody who debugs it.
pub struct BucketSummary {
    pub stripes: usize,
    pub allocated_stripes: usize,
}

/// A bucket with snapshot capabilities.
///
/// This bucket is implemented as a set of per-thread stripes, where each stripe is a singly-linked
/// list of blocks, and each block is a small buffer that can hold a handful of elements.  There is
/// no limit to how many elements can be in the bucket at a time.  Stripes and blocks are
/// dynamically allocated as elements are pushed into the bucket.
///
/// Each writing thread is mapped to a stripe by its ID, and only ever pushes into that stripe.  There
/// are as many stripes as the machine has available parallelism, rounded up to a power of two and up
/// to a limit.  Threads whose IDs are below the number of stripes, which are the first ones to push
/// into any bucket, are mapped to distinct stripes; threads whose IDs differ by a multiple of that
/// number share one.  Stripes and blocks are allocated the first time they're needed, so a bucket
/// that's only written from a few threads only pays for a few stripes.
///
/// Unlike a queue, buckets cannot be drained element by element: callers must iterate the whole
/// structure.  Reading the bucket happens stripe by stripe, and within each stripe, in a
/// quasi-reverse fashion: newest block first, and within each block in the order of insertion.
///
/// For example, in a scenario where an internal block can hold 4 elements, and a single thread has
/// written 10 elements to the bucket, the values are in this order when iterating:
///
/// ```text
/// [8 9] [4 5 6 7] [0 1 2 3]
/// ```
#[verifier::reject_recursive_types(T)]
pub struct AtomicBucket<T> {
    stripes: Vec<Option<Padded<Stripe<T>>>>,
}

spec fn stripe_contents<T>() -> spec_fn(Option<Padded<Stripe<T>>>) -> Option<Seq<Seq<T>>> {
    |stripe: Option<Padded<Stripe<T>>>|
        match stripe {
            None => None,
            Some(stripe) => Some(stripe@@.contents()),
        }
}

impl<T> View for AtomicBucket<T> {
    type V = Seq<Option<Seq<Seq<T>>>>;

    closed spec fn view(&self) -> Seq<Option<Seq<Seq<T>>>> {
        self.stripes@.map_values(stripe_contents())
    }
}

impl<T> AtomicBucket<T> {
    /// The number of stripes is a power of two, and no stripe is in use.
    pub closed spec fn wf(&self) -> bool {
        &&& is_stripe_count(self.stripes.len() as nat)
        &&& forall|k: int|
            0 <= k < self.stripes.len() ==> (#[trigger] self.stripes[k] matches Some(stripe)
                ==> stripe@.idle())
    }

    /// What is in order about a bucket.
    pub proof fn lemma_wf(&self)
        requires
            self.wf(),
        ensures
            is_stripe_count(self@.len()),
            self@.len() > 0,
    {
    }

    /// Creates a new, empty bucket, given the available parallelism of the machine, if it is known.
    pub fn new(parallelism: Option<usize>) -> (bucket: Self)
        ensures
            bucket.wf(),
            is_stripe_count(bucket@.len()),
            parallelism is None ==> bucket@.len() == 1,
            parallelism matches Some(threads) ==> (bucket@.len() >= threads || bucket@.len()
                == MAX_STRIPES) && (bucket@.len() == 1 || bucket@.len() / 2
                < threads),
            forall|k: int| 0 <= k < bucket@.len() ==> #[trigger] bucket@[k] is None,
    {
        let count: usize = stripe_count(parallelism);
        let mut stripes: Vec<Option<Padded<Stripe<T>>>> = Vec::new();
        while stripes.len() < count
            invariant
                stripes.len() <= count,
                forall|k: int| 0 <= k < stripes.len() ==> #[trigger] stripes[k] is None,
            decreases count - stripes.len(),
        {
            stripes.push(None);
        }
        AtomicBucket { stripes }
    }

    /// Gets the stripe with an index, allocating it if necessary.
    fn current_stripe(&mut self, index: usize) -> (stripe: &mut Stripe<T>)
        requires
            old(self).wf(),
            index < old(self)@.len(),
        ensures
            stripe.idle(),
            stripe@.contents() == stripe_blocks(old(self)@[index as int]),
            final(stripe).idle() ==> final(self).wf(),
            final(self)@ == old(self)@.update(index as int, Some(final(stripe)@.contents())),
    {
        if self.stripes[index].is_none() {
            let stripe: Stripe<T> = Stripe::new();
            proof {
                assert(stripe@.contents() =~= Seq::empty());
                lemma_empty::<T>();
            }
            self.stripes[index] = Some(Padded::new(stripe));
        }
        match &mut self.stripes[index] {
            Some(stripe) => stripe.get_mut(),
            None => vstd::pervasive::unreached(),
        }
    }

    /// Pushes an element into the bucket, given the ID of the current thread.
    pub fn push(&mut self, thread: usize, value: T)
        requires
            old(self).wf(),
        ensures
            final(self).wf(),
            final(self)@.len() == old(self)@.len(),
            final(self)@ == old(self)@.update(
                thread as int % old(self)@.len() as int,
                Some(
                    with_pushed(
                        stripe_blocks(old(self)@[thread as int % old(self)@.len() as int]),
                        value,
                    ),
                ),
            ),
            all_values(final(self)@).to_multiset() == all_values(old(self)@).to_multiset().insert(
                value,
            ),
    {
        proof {
            self.lemma_wf();
            law_bucket_push_adds_value(self@, thread as int % self@.len() as int, value);
        }
        let index: usize = stripe_index(thread, self.stripes.len());
        self.current_stripe(index).push(value);
    }

    /// Gets the data of all blocks, stripe by stripe, and within each stripe newest block first.
    pub fn blocks(&self) -> (blocks: Vec<&[T]>)
        requires
            self.wf(),
        ensures
            blocks.len() == all_blocks(self@).len(),
            forall|k: int|
                0 <= k < blocks.len() ==> (#[trigger] blocks[k])@ == all_blocks(self@)[k],
    {
        let mut blocks: Vec<&[T]> = Vec::new();
        let mut k: usize = 0;
        let ghost stripes = block_parts(self@);
        while k < self.stripes.len()
            invariant
                self.wf(),
                k <= self.stripes.len(),
                stripes == block_parts(self@),
                blocks.len() == stripes.take(k as int).flatten().len(),
                forall|j: int|
                    0 <= j < blocks.len() ==> (#[trigger] blocks[j])@ == stripes.take(
                        k as int,
                    ).flatten()[j],
            decreases self.stripes.len() - k,
        {
            proof {
                lemma_flatten_take(stripes, k as int);
            }
            if let Some(stripe) = &self.stripes[k] {
                let mut more: Vec<&[T]> = stripe.get().blocks();
                blocks.append(&mut more);
            }
            k += 1;
        }
        proof {
            assert(stripes.take(k as int) =~= stripes);
        }
        blocks
    }

    /// Checks whether or not this bucket is empty.
    pub fn is_empty(&self) -> (empty: bool)
        requires
            self.wf(),
        ensures
            empty == (all_values(self@).len() == 0),
    {
        let mut k: usize = 0;
        proof {
            lemma_holds_nothing(self@);
        }
        while k < self.stripes.len()
            invariant
                self.wf(),
                k <= self.stripes.len(),
                forall|j: int|
                    0 <= j < k ==> holds_nothing(#[trigger] stripe_blocks(self@[j])),
                all_values(self@).len() == 0 <==> forall|j: int|
                    0 <= j < self@.len() ==> holds_nothing(#[trigger] stripe_blocks(self@[j])),
            decreases self.stripes.len() - k,
        {
            if let Some(stripe) = &self.stripes[k] {
                if !stripe.get().is_empty() {
                    assert(!holds_nothing(stripe_blocks(self@[k as int])));
                    return false;
                }
            }
            k += 1;
        }
        true
    }

    /// Collects all of the elements written to the bucket.
    ///
    /// This operation can be slow as it involves allocating enough space to hold all of the
    /// elements within the bucket.  Consider [`data_with`](AtomicBucket::data_with) to
    /// incrementally iterate the internal blocks within the bucket.
    ///
    /// Elements are grouped by the stripe that they were pushed into, in partial reverse order:
    /// blocks are iterated in reverse order, but the elements within them will appear in their
    /// original order.
    pub fn data(&self) -> (values: Vec<T>) where T: Clone
        requires
            self.wf(),
        ensures
            values.len() == all_values(self@).len(),
            forall|k: int|
                0 <= k < values.len() ==> cloned(all_values(self@)[k], #[trigger] values[k]),
    {
        let blocks: Vec<&[T]> = self.blocks();
        let ghost data = all_blocks(self@);
        let mut values: Vec<T> = Vec::new();
        let mut k: usize = 0;
        while k < blocks.len()
            invariant
                k <= blocks.len(),
                blocks.len() == data.len(),
                forall|j: int| 0 <= j < blocks.len() ==> (#[trigger] blocks[j])@ == data[j],
                values.len() == data.take(k as int).flatten().len(),
                forall|j: int|
                    0 <= j < values.len() ==> cloned(
                        data.take(k as int).flatten()[j],
                        #[trigger] values[j],
                    ),
            decreases blocks.len() - k,
        {
            proof {
                lemma_flatten_take(data, k as int);
            }
            values.extend_from_slice(blocks[k]);
            k += 1;
        }
        proof {
            assert(data.take(k as int) =~= data);
        }
        values
    }

    /// Iterates all of the elements written to the bucket, invoking the callback once for each
    /// block.
    ///
    /// Elements are grouped by the stripe that they were pushed into, in partial reverse order:
    /// blocks are iterated in reverse order, but the elements within them will appear in their
    /// original order.
    pub fn visit<F>(&self, calls: &mut Calls<T, F>) where F: FnMut(&[T])
        requires
            self.wf(),
            forall|slice: &[T]|
                all_blocks(self@).contains(slice@) ==> #[trigger] may_be_called(
                    old(calls).function(),
                    slice,
                ),
        ensures
            final(calls).function() == old(calls).function(),
            final(calls).made() == old(calls).made() + all_blocks(self@),
            forall|k: int|
                0 <= k < all_blocks(self@).len() ==> called_on(
                    old(calls).function(),
                    #[trigger] all_blocks(self@)[k],
                ),
    {
        let ghost parts = block_parts(self@);
        let mut k: usize = 0;
        proof {
            assert(calls.made() =~= old(calls).made() + parts.take(0).flatten());
        }
        while k < self.stripes.len()
            invariant
                self.wf(),
                k <= self.stripes.len(),
                parts == block_parts(self@),
                calls.function() == old(calls).function(),
                calls.made() == old(calls).made() + parts.take(k as int).flatten(),
                forall|slice: &[T]|
                    all_blocks(self@).contains(slice@) ==> #[trigger] may_be_called(
                        old(calls).function(),
                        slice,
                    ),
                forall|i: int, j: int|
                    0 <= i < k && 0 <= j < stripe_blocks(self@[i]).len() ==> called_on(
                        old(calls).function(),
                        #[trigger] stripe_blocks(self@[i])[j],
                    ),
            decreases self.stripes.len() - k,
        {
            proof {
                lemma_flatten_take(parts, k as int);
                assert(old(calls).made() + parts.take(k + 1).flatten() =~= (old(calls).made()
                    + parts.take(k as int).flatten()) + parts[k as int]);
                assert(parts[k as int] == stripe_blocks(self@[k as int]));
                lemma_flatten_contains(parts, k as int);
            }
            match &self.stripes[k] {
                Some(stripe) => stripe.get().data_with(calls),
                None => {
                    proof {
                        assert(calls.made() + parts[k as int] =~= calls.made());
                    }
                },
            }
            k += 1;
        }
        proof {
            assert(parts.take(k as int) =~= parts);
            lemma_all_called(self@, old(calls).function());
        }
    }

    /// Iterates all of the elements written to the bucket, invoking `f` once for each block, and
    /// gives `f` back with the record of its calls.
    ///
    /// Elements are grouped by the stripe that they were pushed into, in partial reverse order:
    /// blocks are iterated in reverse order, but the elements within them will appear in their
    /// original order.
    pub fn data_with<F>(&self, f: F) -> (calls: Calls<T, F>) where F: FnMut(&[T])
        requires
            self.wf(),
            forall|slice: &[T]|
                all_blocks(self@).contains(slice@) ==> #[trigger] may_be_called(f, slice),
        ensures
            calls.function() == f,
            calls.made() == all_blocks(self@),
            forall|k: int|
                0 <= k < all_blocks(self@).len() ==> called_on(f, #[trigger] all_blocks(self@)[k]),
    {
        let mut calls: Calls<T, F> = Calls::new(f);
        self.visit(&mut calls);
        proof {
            assert(calls.made() =~= all_blocks(self@));
        }
        calls
    }

    /// Clears the bucket.
    pub fn clear(&mut self)
        requires
            old(self).wf(),
        ensures
            final(self).wf(),
            final(self)@ == old(self)@.map_values(|stripe: Option<Seq<Seq<T>>>| cleared(stripe)),
    {
        self.clear_with(|_block: &[T]| {});
    }

    /// Clears the bucket, invoking the callback once for every block that will be cleared.
    ///
    /// Elements are grouped by the stripe that they were pushed into, in partial reverse order:
    /// blocks are iterated in reverse order, but the elements within them will appear in their
    /// original order.
    pub fn clear_visiting<F>(&mut self, calls: &mut Calls<T, F>) where F: FnMut(&[T])
        requires
            old(self).wf(),
            forall|slice: &[T]|
                all_blocks(old(self)@).contains(slice@) ==> #[trigger] may_be_called(
                    old(calls).function(),
                    slice,
                ),
        ensures
            final(self).wf(),
            final(self)@ == old(self)@.map_values(|stripe: Option<Seq<Seq<T>>>| cleared(stripe)),
            final(calls).function() == old(calls).function(),
            final(calls).made() == old(calls).made() + all_blocks(old(self)@),
            forall|k: int|
                0 <= k < all_blocks(old(self)@).len() ==> called_on(
                    old(calls).function(),
                    #[trigger] all_blocks(old(self)@)[k],
                ),
    {
        let ghost parts = block_parts(old(self)@);
        let mut k: usize = 0;
        proof {
            assert(calls.made() =~= old(calls).made() + parts.take(0).flatten());
        }
        while k < self.stripes.len()
            invariant
                self.wf(),
                k <= self.stripes.len(),
                self@.len() == old(self)@.len(),
                parts == block_parts(old(self)@),
                calls.function() == old(calls).function(),
                calls.made() == old(calls).made() + parts.take(k as int).flatten(),
                forall|slice: &[T]|
                    all_blocks(old(self)@).contains(slice@) ==> #[trigger] may_be_called(
                        old(calls).function(),
                        slice,
                    ),
                forall|i: int| 0 <= i < k ==> #[trigger] self@[i] == cleared(old(self)@[i]),
                forall|i: int| k <= i < self@.len() ==> #[trigger] self@[i] == old(self)@[i],
                forall|i: int, j: int|
                    0 <= i < k && 0 <= j < stripe_blocks(old(self)@[i]).len() ==> called_on(
                        old(calls).function(),
                        #[trigger] stripe_blocks(old(self)@[i])[j],
                    ),
            decreases self.stripes.len() - k,
        {
            let ghost before = self@;
            proof {
                lemma_flatten_take(parts, k as int);
                assert(old(calls).made() + parts.take(k + 1).flatten() =~= (old(calls).made()
                    + parts.take(k as int).flatten()) + parts[k as int]);
                assert(parts[k as int] == stripe_blocks(before[k as int]));
                lemma_flatten_contains(parts, k as int);
            }
            match &mut self.stripes[k] {
                Some(stripe) => stripe.get_mut().clear_with(calls),
                None => {
                    proof {
                        assert(calls.made() + parts[k as int] =~= calls.made());
                    }
                },
            }
            assert(self@ =~= before.update(k as int, cleared(before[k as int])));
            k += 1;
        }
        proof {
            assert(self@ =~= old(self)@.map_values(
                |stripe: Option<Seq<Seq<T>>>| cleared(stripe),
            ));
            assert(parts.take(k as int) =~= parts);
            lemma_all_called(old(self)@, old(calls).function());
        }
    }

    /// Clears the bucket, invoking `f` once for every block that will be cleared, and gives `f` back
    /// with the record of its calls.
    ///
    /// This method is useful for accumulating values and then observing them, in a way that allows
    /// the caller to avoid visiting the same values again the next time.
    ///
    /// Elements are grouped by the stripe that they were pushed into, in partial reverse order:
    /// blocks are iterated in reverse order, but the elements within them will appear in their
    /// original order.
    pub fn clear_with<F>(&mut self, f: F) -> (calls: Calls<T, F>) where F: FnMut(&[T])
        requires
            old(self).wf(),
            forall|slice: &[T]|
                all_blocks(old(self)@).contains(slice@) ==> #[trigger] may_be_called(f, slice),
        ensures
            final(self).wf(),
            final(self)@ == old(self)@.map_values(|stripe: Option<Seq<Seq<T>>>| cleared(stripe)),
            calls.function() == f,
            calls.made() == all_blocks(old(self)@),
            forall|k: int|
                0 <= k < all_blocks(old(self)@).len() ==> called_on(
                    f,
                    #[trigger] all_blocks(old(self)@)[k],
                ),
    {
        let mut calls: Calls<T, F> = Calls::new(f);
        self.clear_visiting(&mut calls);
        proof {
            assert(calls.made() =~= all_blocks(old(self)@));
        }
        calls
    }

    /// Gets the numbers that describe this bucket to somebody who debugs it.
    pub fn summary(&self) -> (summary: BucketSummary)
        requires
            self.wf(),
        ensures
            summary.stripes == self@.len(),
            summary.allocated_stripes == tally(self@, allocated()),
    {
        let mut allocated_stripes: usize = 0;
        let mut k: usize = 0;
        while k < self.stripes.len()
            invariant
                self.wf(),
                k <= self.stripes.len(),
                allocated_stripes <= k,
                allocated_stripes == tally(self@.take(k as int), allocated()),
            decreases self.stripes.len() - k,
        {
            proof {
                assert(self@.take(k + 1) =~= self@.take(k as int).push(self@[k as int]));
                lemma_tally_push(self@.take(k as int), allocated(), self@[k as int]);
            }
            if self.stripes[k].is_some() {
                allocated_stripes += 1;
            }
            k += 1;
        }
        proof {
            assert(self@.take(k as int) =~= self@);
        }
        BucketSummary { stripes: self.stripes.len(), allocated_stripes }
    }
}

/// One for each stripe that has been allocated.
pub open spec fn allocated<T>() -> spec_fn(Option<Seq<Seq<T>>>) -> nat {
    |stripe: Option<Seq<Seq<T>>>|
        if stripe is Some {
            1
        } else {
            0
        }
}

/// Every element of a flattened sequence comes from one of its parts.
pub(crate) proof fn lemma_flatten_source<A>(s: Seq<Seq<A>>, k: int) -> (place: (int, int))
    requires
        0 <= k < s.flatten().len(),
    ensures
        0 <= place.0 < s.len(),
        0 <= place.1 < s[place.0].len(),
        s.flatten()[k] == s[place.0][place.1],
    decreases s.len(),
{
    if k < s[0].len() {
        (0, k)
    } else {
        let rest = s.drop_first();
        let place = lemma_flatten_source(rest, k - s[0].len());
        assert(rest[place.0] == s[place.0 + 1]);
        (place.0 + 1, place.1)
    }
}

/// The elements of a part of a sequence are in the flattened sequence.
pub(crate) proof fn lemma_flatten_contains<A>(s: Seq<Seq<A>>, i: int)
    requires
        0 <= i < s.len(),
    ensures
        forall|a: A| #[trigger] s[i].contains(a) ==> s.flatten().contains(a),
    decreases s.len(),
{
    assert(s.flatten() == s[0] + s.drop_first().flatten());
    assert forall|a: A| #[trigger] s[i].contains(a) implies s.flatten().contains(a) by {
        let j = choose|j: int| 0 <= j < s[i].len() && s[i][j] == a;
        if i == 0 {
            assert(s.flatten()[j] == a);
        } else {
            let rest = s.drop_first();
            lemma_flatten_contains(rest, i - 1);
            assert(rest[i - 1].contains(a));
            let k = choose|k: int| 0 <= k < rest.flatten().len() && rest.flatten()[k] == a;
            assert(s.flatten()[s[0].len() + k] == a);
        }
    }
}

/// A function that has been called on the blocks of each stripe has been called on all blocks.
proof fn lemma_all_called<T, F: FnMut(&[T])>(stripes: Seq<Option<Seq<Seq<T>>>>, f: F)
    requires
        forall|i: int, j: int|
            0 <= i < stripes.len() && 0 <= j < stripe_blocks(stripes[i]).len() ==> called_on(
                f,
                #[trigger] stripe_blocks(stripes[i])[j],
            ),
    ensures
        forall|k: int|
            0 <= k < all_blocks(stripes).len() ==> called_on(f, #[trigger] all_blocks(stripes)[k]),
{
    let parts = block_parts(stripes);
    assert forall|k: int| 0 <= k < all_blocks(stripes).len() implies called_on(
        f,
        #[trigger] all_blocks(stripes)[k],
    ) by {
        let (i, j) = lemma_flatten_source(parts, k);
        assert(parts[i] == stripe_blocks(stripes[i]));
        assert(called_on(f, stripe_blocks(stripes[i])[j]));
    }
}

/// Flattening one more sequence appends it.
proof fn lemma_flatten_take<A>(s: Seq<Seq<A>>, k: int)
    requires
        0 <= k < s.len(),
    ensures
        s.take(k + 1).flatten() == s.take(k).flatten() + s[k],
{
    s.take(k).lemma_flatten_and_flatten_alt_are_equivalent();
    s.take(k + 1).lemma_flatten_and_flatten_alt_are_equivalent();
    assert(s.take(k + 1).drop_last() =~= s.take(k));
}

/// A flattened sequence is empty exactly when all its parts are.
proof fn lemma_flatten_is_empty<A>(s: Seq<Seq<A>>)
    ensures
        s.flatten().len() == 0 <==> holds_nothing(s),
    decreases s.len(),
{
    if s.len() > 0 {
        let rest = s.drop_first();
        lemma_flatten_is_empty(rest);
        if holds_nothing(s) {
            assert forall|k: int| 0 <= k < rest.len() implies #[trigger] rest[k].len() == 0 by {
                assert(s[k + 1].len() == 0);
            }
            assert(s[0].len() == 0);
        }
        if s.flatten().len() == 0 {
            assert forall|k: int| 0 <= k < s.len() implies #[trigger] s[k].len() == 0 by {
                if k > 0 {
                    assert(rest[k - 1].len() == 0);
                }
            }
        }
    }
}

/// A bucket has no values exactly when none of its stripes has any.
proof fn lemma_holds_nothing<T>(stripes: Seq<Option<Seq<Seq<T>>>>)
    ensures
        all_values(stripes).len() == 0 <==> forall|j: int|
            0 <= j < stripes.len() ==> holds_nothing(#[trigger] stripe_blocks(stripes[j])),
{
    let parts = block_parts(stripes);
    lemma_flatten_is_empty(all_blocks(stripes));
    lemma_parts_hold_nothing(parts);
    if holds_nothing(parts.flatten()) {
        assert forall|j: int| 0 <= j < stripes.len() implies holds_nothing(
            #[trigger] stripe_blocks(stripes[j]),
        ) by {
            assert(parts[j] == stripe_blocks(stripes[j]));
        }
    }
    if forall|j: int| 0 <= j < stripes.len() ==> holds_nothing(#[trigger] stripe_blocks(stripes[j])) {
        assert forall|j: int| 0 <= j < parts.len() implies holds_nothing(#[trigger] parts[j]) by {
            assert(parts[j] == stripe_blocks(stripes[j]));
        }
    }
}

proof fn lemma_parts_hold_nothing<A>(parts: Seq<Seq<Seq<A>>>)
    ensures
        holds_nothing(parts.flatten()) <==> forall|j: int|
            0 <= j < parts.len() ==> holds_nothing(#[trigger] parts[j]),
    decreases parts.len(),
{
    if parts.len() > 0 {
        let rest = parts.drop_first();
        let first = parts[0];
        lemma_parts_hold_nothing(rest);
        assert(parts.flatten() == first + rest.flatten());
        if holds_nothing(parts.flatten()) {
            assert forall|k: int| 0 <= k < first.len() implies #[trigger] first[k].len() == 0 by {
                assert(parts.flatten()[k] == first[k]);
            }
            assert forall|k: int| 0 <= k < rest.flatten().len() implies #[trigger] rest.flatten()[k].len()
                == 0 by {
                assert(parts.flatten()[first.len() + k] == rest.flatten()[k]);
            }
            assert forall|j: int| 0 <= j < parts.len() implies holds_nothing(
                #[trigger] parts[j],
            ) by {
                if j > 0 {
                    assert(rest[j - 1] == parts[j]);
                }
            }
        }
        if forall|j: int| 0 <= j < parts.len() ==> holds_nothing(#[trigger] parts[j]) {
            assert forall|j: int| 0 <= j < rest.len() implies holds_nothing(#[trigger] rest[j]) by {
                assert(rest[j] == parts[j + 1]);
            }
            assert forall|k: int| 0 <= k < parts.flatten().len() implies #[trigger] parts.flatten()[k].len()
                == 0 by {
                if k < first.len() {
                    assert(holds_nothing(parts[0]));
                    assert(first[k].len() == 0);
                } else {
                    assert(rest.flatten()[k - first.len()].len() == 0);
                }
            }
        }
    }
}

} // verus!
