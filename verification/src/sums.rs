//! Sums over sequences.
use vstd::multiset::Multiset;
use vstd::prelude::*;

verus! {

/// The sum of the weights of the elements of a sequence.
pub open spec fn tally<A>(s: Seq<A>, weight: spec_fn(A) -> nat) -> nat
    decreases s.len(),
{
    if s.len() == 0 {
        0
    } else {
        tally(s.drop_last(), weight) + weight(s.last())
    }
}

/// Replacing an element replaces its weight.
pub proof fn lemma_tally_update<A>(s: Seq<A>, weight: spec_fn(A) -> nat, i: int, a: A)
    requires
        0 <= i < s.len(),
    ensures
        tally(s.update(i, a), weight) + weight(s[i]) == tally(s, weight) + weight(a),
    decreases s.len(),
{
    if i == s.len() - 1 {
        assert(s.update(i, a).drop_last() =~= s.drop_last());
    } else {
        assert(s.update(i, a).drop_last() =~= s.drop_last().update(i, a));
        lemma_tally_update(s.drop_last(), weight, i, a);
    }
}

/// Appending an element adds its weight.
pub proof fn lemma_tally_push<A>(s: Seq<A>, weight: spec_fn(A) -> nat, a: A)
    ensures
        tally(s.push(a), weight) == tally(s, weight) + weight(a),
{
    assert(s.push(a).drop_last() =~= s);
}

/// A sum is at least the weight of each element.
pub proof fn lemma_tally_covers<A>(s: Seq<A>, weight: spec_fn(A) -> nat, i: int)
    requires
        0 <= i < s.len(),
    ensures
        weight(s[i]) <= tally(s, weight),
    decreases s.len(),
{
    if i < s.len() - 1 {
        lemma_tally_covers(s.drop_last(), weight, i);
    }
}

/// A sum is at least the weight of any two elements together.
pub proof fn lemma_tally_covers_two<A>(s: Seq<A>, weight: spec_fn(A) -> nat, i: int, j: int)
    requires
        0 <= i < j < s.len(),
    ensures
        weight(s[i]) + weight(s[j]) <= tally(s, weight),
    decreases s.len(),
{
    if j < s.len() - 1 {
        lemma_tally_covers_two(s.drop_last(), weight, i, j);
    } else {
        lemma_tally_covers(s.drop_last(), weight, i);
    }
}

/// A sum that is not zero has an element with a weight that is not zero.
pub proof fn lemma_tally_witness<A>(s: Seq<A>, weight: spec_fn(A) -> nat) -> (i: int)
    requires
        tally(s, weight) > 0,
    ensures
        0 <= i < s.len(),
        weight(s[i]) > 0,
    decreases s.len(),
{
    if weight(s.last()) > 0 {
        s.len() - 1
    } else {
        lemma_tally_witness(s.drop_last(), weight)
    }
}

/// A sum of weights that have a bound is at most the bound for each element.
pub proof fn lemma_tally_bound<A>(s: Seq<A>, weight: spec_fn(A) -> nat, bound: nat)
    requires
        forall|i: int| 0 <= i < s.len() ==> weight(#[trigger] s[i]) <= bound,
    ensures
        tally(s, weight) <= bound * s.len(),
    decreases s.len(),
{
    if s.len() > 0 {
        assert forall|i: int| 0 <= i < s.drop_last().len() implies weight(
            #[trigger] s.drop_last()[i],
        ) <= bound by {
            assert(s.drop_last()[i] == s[i]);
        }
        lemma_tally_bound(s.drop_last(), weight, bound);
        assert(bound * s.len() == bound * (s.len() - 1) + bound) by (nonlinear_arith);
    }
}

/// Two sums whose weights have a bound together are at most that bound for each element together.
pub proof fn lemma_tally_bound_two<A>(
    s: Seq<A>,
    weight: spec_fn(A) -> nat,
    other: spec_fn(A) -> nat,
    bound: nat,
)
    requires
        forall|i: int| 0 <= i < s.len() ==> weight(#[trigger] s[i]) + other(s[i]) <= bound,
    ensures
        tally(s, weight) + tally(s, other) <= bound * s.len(),
    decreases s.len(),
{
    if s.len() > 0 {
        assert forall|i: int| 0 <= i < s.drop_last().len() implies weight(
            #[trigger] s.drop_last()[i],
        ) + other(s.drop_last()[i]) <= bound by {
            assert(s.drop_last()[i] == s[i]);
        }
        lemma_tally_bound_two(s.drop_last(), weight, other, bound);
        assert(bound * s.len() == bound * (s.len() - 1) + bound) by (nonlinear_arith);
    }
}

/// A sum that weighs nothing has only elements that weigh nothing.
pub proof fn lemma_tally_zero<A>(s: Seq<A>, weight: spec_fn(A) -> nat)
    requires
        forall|i: int| 0 <= i < s.len() ==> weight(#[trigger] s[i]) == 0,
    ensures
        tally(s, weight) == 0,
{
    lemma_tally_bound(s, weight, 0);
}

/// All that the elements of a sequence hold, together.
pub open spec fn gather<A, T>(s: Seq<A>, holds: spec_fn(A) -> Multiset<T>) -> Multiset<T>
    decreases s.len(),
{
    if s.len() == 0 {
        Multiset::empty()
    } else {
        gather(s.drop_last(), holds).add(holds(s.last()))
    }
}

/// Replacing an element replaces what it holds.
pub proof fn lemma_gather_update<A, T>(s: Seq<A>, holds: spec_fn(A) -> Multiset<T>, i: int, a: A)
    requires
        0 <= i < s.len(),
    ensures
        gather(s.update(i, a), holds).add(holds(s[i])) =~= gather(s, holds).add(holds(a)),
    decreases s.len(),
{
    if i == s.len() - 1 {
        assert(s.update(i, a).drop_last() =~= s.drop_last());
    } else {
        let rest = s.drop_last();
        assert(s.update(i, a).drop_last() =~= rest.update(i, a));
        lemma_gather_update(rest, holds, i, a);
        assert forall|v: T| #[trigger]
            gather(s.update(i, a), holds).add(holds(s[i])).count(v) == gather(s, holds).add(
                holds(a),
            ).count(v) by {
            assert(gather(rest.update(i, a), holds).add(holds(rest[i])).count(v) == gather(
                rest,
                holds,
            ).add(holds(a)).count(v));
        }
    }
}

/// Appending an element adds what it holds.
pub proof fn lemma_gather_push<A, T>(s: Seq<A>, holds: spec_fn(A) -> Multiset<T>, a: A)
    ensures
        gather(s.push(a), holds) == gather(s, holds).add(holds(a)),
{
    assert(s.push(a).drop_last() =~= s);
}

/// Elements that hold nothing hold nothing together.
pub proof fn lemma_gather_nothing<A, T>(s: Seq<A>, holds: spec_fn(A) -> Multiset<T>)
    requires
        forall|i: int| 0 <= i < s.len() ==> holds(#[trigger] s[i]) == Multiset::<T>::empty(),
    ensures
        gather(s, holds) == Multiset::<T>::empty(),
    decreases s.len(),
{
    if s.len() > 0 {
        assert forall|i: int| 0 <= i < s.drop_last().len() implies holds(#[trigger] s.drop_last()[i])
            == Multiset::<T>::empty() by {
            assert(s.drop_last()[i] == s[i]);
        }
        lemma_gather_nothing(s.drop_last(), holds);
        assert(holds(s[s.len() - 1]) == Multiset::<T>::empty());
        assert(gather(s, holds) =~= Multiset::<T>::empty());
    }
}

/// What an element weighs is in the sum.
pub proof fn lemma_gather_covers<A, T>(
    s: Seq<A>,
    weight: spec_fn(A) -> Multiset<T>,
    i: int,
    value: T,
)
    requires
        0 <= i < s.len(),
    ensures
        gather(s, weight).count(value) >= weight(s[i]).count(value),
    decreases s.len(),
{
    assert(gather(s, weight).count(value) == gather(s.drop_last(), weight).count(value) + weight(
        s.last(),
    ).count(value));
    if i < s.len() - 1 {
        lemma_gather_covers(s.drop_last(), weight, i, value);
    }
}

} // verus!
