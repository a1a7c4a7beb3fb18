//! Which stripe a thread pushes into.
use vstd::arithmetic::div_mod::{
    lemma_fundamental_div_mod, lemma_fundamental_div_mod_converse, lemma_small_mod,
};
use vstd::prelude::*;

verus! {

/// Upper bound on the number of stripes in a bucket.
///
/// The actual number of stripes is derived from the available parallelism of the machine, rounded
/// up to a power of two, so this only kicks in on very large machines.
pub const MAX_STRIPES: usize = 256;

/// Whether a number is a power of two.
pub open spec fn is_power_of_two(n: nat) -> bool
    decreases n,
{
    if n == 0 {
        false
    } else {
        n == 1 || n % 2 == 0 && is_power_of_two(n / 2)
    }
}

/// Whether a bucket can have a number of stripes.
pub open spec fn is_stripe_count(count: nat) -> bool {
    is_power_of_two(count) && count <= MAX_STRIPES
}

/// A power of two that is less than another one is at most half of it.
proof fn lemma_below_max(n: nat, max: nat)
    requires
        is_power_of_two(n),
        is_power_of_two(max),
        n < max,
    ensures
        2 * n <= max,
    decreases max,
{
    if n > 1 {
        lemma_below_max(n / 2, max / 2);
    }
}

/// Gets the number of stripes used by every bucket, given the available parallelism of the
/// machine, if it is known.
///
/// This is the available parallelism, rounded up to a power of two, so that the stripe index can
/// be computed with a mask.
pub fn stripe_count(parallelism: Option<usize>) -> (count: usize)
    ensures
        is_stripe_count(count as nat),
        parallelism is None ==> count == 1,
        parallelism matches Some(threads) ==> (count >= threads || count == MAX_STRIPES) && (count
            == 1 || count / 2 < threads),
{
    let threads: usize = match parallelism {
        Some(threads) => threads,
        None => 1,
    };
    let mut count: usize = 1;
    assert(is_power_of_two(MAX_STRIPES as nat)) by {
        reveal_with_fuel(is_power_of_two, 10);
    }
    while count < threads && count < MAX_STRIPES
        invariant
            is_stripe_count(count as nat),
            is_power_of_two(MAX_STRIPES as nat),
            count == 1 || count / 2 < threads,
        decreases MAX_STRIPES - count,
    {
        proof {
            lemma_below_max(count as nat, MAX_STRIPES as nat);
            assert((2 * count as nat) % 2 == 0 && (2 * count as nat) / 2 == count as nat);
            assert(is_power_of_two(2 * count as nat));
        }
        count = count * 2;
    }
    count
}

/// Marks that a thread has not been given an ID yet.
pub const UNASSIGNED: usize = usize::MAX;

/// Gets the stripe index for the thread with the given ID, given the number of stripes in a
/// bucket.
pub fn stripe_index(id: usize, count: usize) -> (index: usize)
    requires
        count > 0,
    ensures
        index == id & (count - 1) as usize,
        is_power_of_two(count as nat) ==> index == id % count && index < count,
{
    proof {
        if is_power_of_two(count as nat) {
            lemma_mask(id, count);
        }
    }
    id & (count - 1)
}

/// Masking with one less than a power of two is the remainder.
proof fn lemma_mask(id: usize, count: usize)
    requires
        is_power_of_two(count as nat),
    ensures
        id & (count - 1) as usize == id % count,
    decreases count,
{
    if count == 1 {
        assert(id & 0 == 0) by (bit_vector);
    } else {
        let half = (count / 2) as usize;
        let rest = (id / 2) as usize;
        assert(is_power_of_two(half as nat));
        lemma_mask(rest, half);
        assert(id & (count - 1) as usize == 2 * (rest & (half - 1) as usize) + id % 2)
            by (bit_vector)
            requires
                count == 2 * half,
                half >= 1,
                rest == id / 2,
        ;
        let quotient = rest as int / half as int;
        let remainder = rest as int % half as int;
        lemma_fundamental_div_mod(rest as int, half as int);
        assert(id as int == quotient * count as int + (2 * remainder + id as int % 2))
            by (nonlinear_arith)
            requires
                id as int == 2 * rest as int + id as int % 2,
                rest as int == half as int * quotient + remainder,
                count as int == 2 * half as int,
        ;
        lemma_fundamental_div_mod_converse(
            id as int,
            count as int,
            quotient,
            2 * remainder + id as int % 2,
        );
    }
}

/// Gets the stripe index for the current thread, given the number of stripes in a bucket.
///
/// Every thread is assigned a unique, sequential ID the first time it pushes into any bucket:
/// `id` is the ID of the current thread, or [`UNASSIGNED`], and `next_id` is the ID for the next
/// thread that needs one.
pub fn current_stripe_index(id: &mut usize, next_id: &mut usize, count: usize) -> (index: usize)
    requires
        count > 0,
    ensures
        *old(id) != UNASSIGNED ==> *final(id) == *old(id) && *final(next_id) == *old(next_id),
        *old(id) == UNASSIGNED ==> *final(id) == *old(next_id) && *final(next_id) == old(
            next_id,
        ).wrapping_add(1),
        index == *final(id) & (count - 1) as usize,
        is_power_of_two(count as nat) ==> index == *final(id) % count && index < count,
{
    if *id == UNASSIGNED {
        *id = *next_id;
        *next_id = next_id.wrapping_add(1);
    }
    stripe_index(*id, count)
}

/// The first threads to push, as many as there are stripes, land on distinct stripes.
pub proof fn law_first_threads_are_apart(count: usize, first: usize, second: usize)
    requires
        is_power_of_two(count as nat),
        first < count,
        second < count,
        first != second,
    ensures
        first & (count - 1) as usize != second & (count - 1) as usize,
{
    lemma_small_mod(first as nat, count as nat);
    lemma_small_mod(second as nat, count as nat);
    lemma_mask(first, count);
    lemma_mask(second, count);
}

} // verus!
