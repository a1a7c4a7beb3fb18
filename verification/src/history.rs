//! What a bucket holds after any number of pushes and clears, one after the other or at the same
//! time.
use crate::alone::with_pushed;
use crate::bucket::{all_blocks, all_values, allocated, block_parts, cleared, stripe_blocks};
use crate::laws::law_quiet;
use crate::order::{all_pushed, in_stripe, lemma_values_by_stripe};
use crate::runs::{
    all_handed_out, all_pushed_in, is_run, law_run_keeps_order, law_run_keeps_values, run, Event,
};
use crate::sums::{gather, lemma_tally_update, lemma_tally_zero, tally};
use vstd::multiset::Multiset;
use vstd::prelude::*;

verus! {

/// What is done to a bucket.  Reading changes nothing, and so is left out.
pub enum Use<T> {
    /// A thread pushes a value.
    Push { thread: usize, value: T },
    /// The bucket is cleared.
    Clear,
}

/// The stripe that a thread pushes into.
pub open spec fn stripe_of(thread: usize, count: nat) -> int {
    thread as int % count as int
}

/// What a bucket with a number of stripes holds after uses, one after the other.
pub open spec fn used<T>(count: nat, uses: Seq<Use<T>>) -> Seq<Option<Seq<Seq<T>>>>
    decreases uses.len(),
{
    if uses.len() == 0 {
        Seq::new(count, |k: int| None)
    } else {
        let before = used(count, uses.drop_last());
        match uses.last() {
            Use::Push { thread, value } => before.update(
                stripe_of(thread, before.len()),
                Some(
                    with_pushed(stripe_blocks(before[stripe_of(thread, before.len())]), value),
                ),
            ),
            Use::Clear => before.map_values(|stripe: Option<Seq<Seq<T>>>| cleared(stripe)),
        }
    }
}

/// The values that threads have pushed into a stripe since the bucket was made or last cleared, in
/// the order of the pushes.
pub open spec fn pushed_into<T>(count: nat, uses: Seq<Use<T>>, k: int) -> Seq<T>
    decreases uses.len(),
{
    if uses.len() == 0 {
        Seq::empty()
    } else {
        let before = pushed_into(count, uses.drop_last(), k);
        match uses.last() {
            Use::Push { thread, value } => if stripe_of(thread, count) == k {
                before.push(value)
            } else {
                before
            },
            Use::Clear => Seq::empty(),
        }
    }
}

/// The threads that have pushed into the bucket since it was made.
pub open spec fn writers<T>(uses: Seq<Use<T>>) -> Set<usize>
    decreases uses.len(),
{
    if uses.len() == 0 {
        Set::empty()
    } else {
        match uses.last() {
            Use::Push { thread, .. } => writers(uses.drop_last()).insert(thread),
            Use::Clear => writers(uses.drop_last()),
        }
    }
}

/// The stripes that those threads push into.
pub open spec fn stripes_of_writers<T>(count: nat, uses: Seq<Use<T>>) -> Set<int>
    decreases uses.len(),
{
    if uses.len() == 0 {
        Set::empty()
    } else {
        let before = stripes_of_writers(count, uses.drop_last());
        match uses.last() {
            Use::Push { thread, .. } => before.insert(stripe_of(thread, count)),
            Use::Clear => before,
        }
    }
}

/// A thread only ever pushes into one stripe of a bucket, whatever is done to the bucket in the
/// meantime: the number of stripes never changes, and so neither does the stripe of a thread.
pub proof fn law_thread_keeps_its_stripe<T>(count: nat, uses: Seq<Use<T>>, thread: usize)
    requires
        count > 0,
    ensures
        used(count, uses).len() == count,
        stripe_of(thread, used(count, uses).len()) == stripe_of(thread, count),
        0 <= stripe_of(thread, count) < count,
    decreases uses.len(),
{
    if uses.len() > 0 {
        law_thread_keeps_its_stripe(count, uses.drop_last(), thread);
    }
}

/// A stripe holds exactly what the threads that push into it have pushed since the bucket was made
/// or last cleared, in the order of the pushes.
pub proof fn law_stripe_holds_its_pushes<T>(count: nat, uses: Seq<Use<T>>, k: int)
    requires
        0 <= k < count,
    ensures
        used(count, uses).len() == count,
        stripe_blocks(used(count, uses)[k]) == all_pushed(pushed_into(count, uses, k)),
    decreases uses.len(),
{
    if uses.len() > 0 {
        let rest = uses.drop_last();
        law_stripe_holds_its_pushes(count, rest, k);
        match uses.last() {
            Use::Push { thread, value } => {
                law_thread_keeps_its_stripe(count, rest, thread);
                let before = pushed_into(count, rest, k);
                assert(before.push(value).drop_last() =~= before);
            },
            Use::Clear => {},
        }
    }
}

/// All parts of a sequence but one are empty.
proof fn lemma_only_part<A>(parts: Seq<Seq<A>>, k: int)
    requires
        0 <= k < parts.len(),
        forall|j: int| 0 <= j < parts.len() && j != k ==> #[trigger] parts[j].len() == 0,
    ensures
        parts.flatten() == parts[k],
    decreases parts.len(),
{
    let rest = parts.drop_first();
    assert(parts.flatten() == parts[0] + rest.flatten());
    assert forall|j: int| 0 <= j < rest.len() && j != k - 1 implies #[trigger] rest[j].len() == 0 by {
        assert(rest[j] == parts[j + 1]);
    }
    if k > 0 {
        lemma_only_part(rest, k - 1);
        assert(parts[0].len() == 0);
        assert(parts.flatten() =~= parts[k]);
    } else {
        if rest.len() > 0 {
            lemma_only_part(rest, 0);
            assert(rest[0] == parts[1]);
        }
        assert(parts.flatten() =~= parts[0]);
    }
}

/// When all values have been pushed into one stripe, as by a single thread, the blocks of the bucket
/// are those of that stripe: the values fill one block after the other in the order of the pushes,
/// and the blocks are visited newest first.
pub proof fn law_one_stripe_order<T>(count: nat, uses: Seq<Use<T>>, k: int)
    requires
        0 <= k < count,
        forall|j: int|
            0 <= j < count && j != k ==> #[trigger] pushed_into(count, uses, j).len() == 0,
    ensures
        all_blocks(used(count, uses)) == all_pushed(pushed_into(count, uses, k)),
{
    let stripes = used(count, uses);
    let parts = block_parts(stripes);
    law_stripe_holds_its_pushes(count, uses, k);
    assert forall|j: int| 0 <= j < parts.len() && j != k implies #[trigger] parts[j].len() == 0 by {
        law_stripe_holds_its_pushes(count, uses, j);
        assert(pushed_into(count, uses, j).len() == 0);
    }
    lemma_only_part(parts, k);
}

/// The stripes that are allocated are those that a thread has pushed into: reading and clearing
/// neither allocate nor free one, a new bucket has none, and there are at most as many as there are
/// writing threads.
pub proof fn law_allocated_stripes<T>(count: nat, uses: Seq<Use<T>>)
    requires
        count > 0,
    ensures
        used(count, uses).len() == count,
        forall|k: int|
            0 <= k < count ==> (#[trigger] used(count, uses)[k] is Some <==> stripes_of_writers(
                count,
                uses,
            ).contains(k)),
        tally(used(count, uses), allocated()) == stripes_of_writers(count, uses).len(),
        stripes_of_writers(count, uses).len() <= writers(uses).len(),
{
    lemma_allocated(count, uses);
}

proof fn lemma_allocated<T>(count: nat, uses: Seq<Use<T>>)
    requires
        count > 0,
    ensures
        used(count, uses).len() == count,
        stripes_of_writers(count, uses).finite(),
        writers(uses).finite(),
        forall|k: int|
            0 <= k < count ==> (#[trigger] used(count, uses)[k] is Some <==> stripes_of_writers(
                count,
                uses,
            ).contains(k)),
        forall|thread: usize| #[trigger]
            writers(uses).contains(thread) ==> stripes_of_writers(count, uses).contains(
                stripe_of(thread, count),
            ),
        tally(used(count, uses), allocated()) == stripes_of_writers(count, uses).len(),
        stripes_of_writers(count, uses).len() <= writers(uses).len(),
    decreases uses.len(),
{
    let stripes = used(count, uses);
    if uses.len() == 0 {
        lemma_tally_zero(stripes, allocated());
    } else {
        let rest = uses.drop_last();
        let before = used(count, rest);
        lemma_allocated(count, rest);
        match uses.last() {
            Use::Push { thread, value } => {
                law_thread_keeps_its_stripe(count, rest, thread);
                let k = stripe_of(thread, count);
                lemma_tally_update(before, allocated(), k, stripes[k]);
            },
            Use::Clear => {
                lemma_same_tally(before, stripes);
            },
        }
    }
}

/// Stripes of which the same ones are allocated have as many allocated.
proof fn lemma_same_tally<T>(a: Seq<Option<Seq<Seq<T>>>>, b: Seq<Option<Seq<Seq<T>>>>)
    requires
        a.len() == b.len(),
        forall|k: int| 0 <= k < a.len() ==> (#[trigger] a[k] is Some <==> b[k] is Some),
    ensures
        tally(a, allocated()) == tally(b, allocated()),
    decreases a.len(),
{
    if a.len() > 0 {
        assert(a[a.len() - 1] is Some <==> b[b.len() - 1] is Some);
        assert forall|k: int| 0 <= k < a.drop_last().len() implies (
        #[trigger] a.drop_last()[k] is Some <==> b.drop_last()[k] is Some) by {
            assert(a[k] is Some <==> b[k] is Some);
        }
        lemma_same_tally(a.drop_last(), b.drop_last());
    }
}

/// The values that a stripe holds after a run.
pub open spec fn held<T>() -> spec_fn(Seq<Event<T>>) -> Multiset<T> {
    |events: Seq<Event<T>>| run(events).total()
}

/// The values that have been handed to a stripe in a run.
pub open spec fn pushed<T>() -> spec_fn(Seq<Event<T>>) -> Multiset<T> {
    |events: Seq<Event<T>>| all_pushed_in(events)
}

/// The values that a stripe has handed out in a run.
pub open spec fn handed_out<T>() -> spec_fn(Seq<Event<T>>) -> Multiset<T> {
    |events: Seq<Event<T>>| all_handed_out(events)
}

/// What stripes hold after their runs, one run for each stripe.
pub open spec fn after_runs<T>(runs: Seq<Seq<Event<T>>>) -> Seq<Option<Seq<Seq<T>>>> {
    runs.map_values(|events: Seq<Event<T>>| Some(run(events).contents()))
}

/// Nothing is lost and nothing is duplicated in a bucket whose stripes are all used at the same time,
/// by any number of operations each and in any interleaving: at every moment, each value that was
/// handed to the bucket has either been handed out, exactly once, or is still held.  Stripes share
/// no memory, so that what happens to a bucket is one run for each stripe.
pub proof fn law_stripes_keep_values<T>(runs: Seq<Seq<Event<T>>>)
    requires
        forall|k: int| 0 <= k < runs.len() ==> is_run(#[trigger] runs[k]),
    ensures
        gather(runs, held()).add(gather(runs, handed_out())) == gather(runs, pushed()),
    decreases runs.len(),
{
    if runs.len() == 0 {
        assert(gather(runs, held()).add(gather(runs, handed_out())) =~= gather(runs, pushed()));
    } else {
        let rest = runs.drop_last();
        assert forall|k: int| 0 <= k < rest.len() implies is_run(#[trigger] rest[k]) by {
            assert(rest[k] == runs[k]);
        }
        law_stripes_keep_values(rest);
        assert(is_run(runs[runs.len() - 1]));
        law_run_keeps_values(runs.last());
        assert(gather(runs, held()).add(gather(runs, handed_out())) =~= gather(rest, held()).add(
            gather(rest, handed_out()),
        ).add(held()(runs.last()).add(handed_out()(runs.last()))));
    }
}

/// Once all operations on a bucket have finished, each value that was handed to it has either been
/// handed out, exactly once, or is there to be read, whichever stripes the values went to.
pub proof fn law_quiet_stripes_keep_values<T>(runs: Seq<Seq<Event<T>>>)
    requires
        forall|k: int| 0 <= k < runs.len() ==> is_run(#[trigger] runs[k]) && run(runs[k]).quiet(),
    ensures
        all_values(after_runs(runs)).to_multiset().add(gather(runs, handed_out())) == gather(
            runs,
            pushed(),
        ),
{
    law_stripes_keep_values(runs);
    lemma_values_by_stripe(after_runs(runs));
    lemma_held_is_read(runs);
}

proof fn lemma_held_is_read<T>(runs: Seq<Seq<Event<T>>>)
    requires
        forall|k: int| 0 <= k < runs.len() ==> is_run(#[trigger] runs[k]) && run(runs[k]).quiet(),
    ensures
        gather(after_runs(runs), in_stripe()) == gather(runs, held()),
    decreases runs.len(),
{
    if runs.len() > 0 {
        let rest = runs.drop_last();
        assert forall|k: int| 0 <= k < rest.len() implies is_run(#[trigger] rest[k]) && run(
            rest[k],
        ).quiet() by {
            assert(rest[k] == runs[k]);
        }
        lemma_held_is_read(rest);
        assert(after_runs(runs).drop_last() =~= after_runs(rest));
        assert(is_run(runs[runs.len() - 1]));
        law_run_keeps_order(runs.last());
        law_quiet(run(runs.last()));
    }
}

} // verus!
