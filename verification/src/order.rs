//! What a bucket promises of its values as a whole, and of their order.
use crate::alone::{needs_block, with_pushed, with_room};
use crate::block::BLOCK_SIZE;
use crate::bucket::{all_blocks, all_values, block_parts, cleared, stripe_blocks};
use crate::sums::{gather, lemma_gather_update};
use vstd::multiset::Multiset;
use vstd::prelude::*;
use vstd::seq_lib::lemma_multiset_commutative;

verus! {

/// Flattening two sequences one after the other is flattening their concatenation.
proof fn lemma_flatten_concat<A>(a: Seq<Seq<A>>, b: Seq<Seq<A>>)
    ensures
        (a + b).flatten() == a.flatten() + b.flatten(),
    decreases a.len(),
{
    if a.len() == 0 {
        assert(a + b =~= b);
        assert(a.flatten() + b.flatten() =~= b.flatten());
    } else {
        lemma_flatten_concat(a.drop_first(), b);
        assert((a + b).drop_first() =~= a.drop_first() + b);
        assert((a + b).flatten() =~= a.flatten() + b.flatten());
    }
}

/// The values of the stripes, stripe by stripe.
spec fn parts<T>(stripes: Seq<Option<Seq<Seq<T>>>>) -> Seq<Seq<T>> {
    stripes.map_values(|stripe: Option<Seq<Seq<T>>>| stripe_blocks(stripe).flatten())
}

/// The values of a bucket are those of its stripes.
proof fn lemma_all_values<T>(stripes: Seq<Option<Seq<Seq<T>>>>)
    ensures
        all_values(stripes) == parts(stripes).flatten(),
    decreases stripes.len(),
{
    let blocks = block_parts(stripes);
    if stripes.len() == 0 {
        assert(all_values(stripes) =~= parts(stripes).flatten());
    } else {
        let rest = stripes.drop_first();
        lemma_all_values(rest);
        assert(blocks.drop_first() =~= block_parts(rest));
        assert(parts(stripes).drop_first() =~= parts(rest));
        lemma_flatten_concat(blocks[0], blocks.drop_first().flatten());
        assert(all_blocks(stripes) == blocks[0] + all_blocks(rest));
    }
}

spec fn in_part<T>() -> spec_fn(Seq<T>) -> Multiset<T> {
    |part: Seq<T>| part.to_multiset()
}

/// The values of a flattened sequence are those of its parts.
proof fn lemma_flatten_values<T>(s: Seq<Seq<T>>)
    ensures
        s.flatten().to_multiset() == gather(s, in_part()),
    decreases s.len(),
{
    s.lemma_flatten_and_flatten_alt_are_equivalent();
    if s.len() == 0 {
        s.flatten().to_multiset_ensures();
        assert(s.flatten().to_multiset() =~= Multiset::<T>::empty());
    } else {
        lemma_flatten_values(s.drop_last());
        s.drop_last().lemma_flatten_and_flatten_alt_are_equivalent();
        lemma_multiset_commutative(s.drop_last().flatten_alt(), s.last());
    }
}

/// The values that a stripe holds.
pub open spec fn in_stripe<T>() -> spec_fn(Option<Seq<Seq<T>>>) -> Multiset<T> {
    |stripe: Option<Seq<Seq<T>>>| stripe_blocks(stripe).flatten().to_multiset()
}

/// The values of a bucket are those of its stripes, together.
pub proof fn lemma_values_by_stripe<T>(stripes: Seq<Option<Seq<Seq<T>>>>)
    ensures
        all_values(stripes).to_multiset() == gather(stripes, in_stripe()),
{
    lemma_all_values(stripes);
    lemma_flatten_values(parts(stripes));
    lemma_parts(stripes);
}

proof fn lemma_parts<T>(stripes: Seq<Option<Seq<Seq<T>>>>)
    ensures
        gather(parts(stripes), in_part()) == gather(stripes, in_stripe()),
    decreases stripes.len(),
{
    if stripes.len() > 0 {
        lemma_parts(stripes.drop_last());
        assert(parts(stripes).drop_last() =~= parts(stripes.drop_last()));
    }
}

/// Pushing a value into a stripe adds that value to those of the stripe, and no other.
pub proof fn law_push_adds_value<T>(contents: Seq<Seq<T>>, value: T)
    ensures
        with_pushed(contents, value).flatten().to_multiset()
            == contents.flatten().to_multiset().insert(value),
{
    let room = with_room(contents);
    if needs_block(contents) {
        lemma_flatten_concat(seq![Seq::<T>::empty()], contents);
        seq![Seq::<T>::empty()].lemma_flatten_one_element();
        assert(room.flatten() =~= contents.flatten());
    }
    let grown = room[0].push(value);
    room[0].to_multiset_ensures();
    lemma_flatten_values(room);
    lemma_flatten_values(with_pushed(contents, value));
    lemma_gather_update(room, in_part(), 0, grown);
    let before = gather(room, in_part());
    let after = gather(with_pushed(contents, value), in_part());
    let old_part = room[0].to_multiset();
    assert(after.add(old_part) == before.add(old_part.insert(value)));
    assert forall|v: T| #[trigger] after.count(v) == before.insert(value).count(v) by {
        assert(after.add(old_part).count(v) == after.count(v) + old_part.count(v));
        assert(before.add(old_part.insert(value)).count(v) == before.count(v) + old_part.insert(
            value,
        ).count(v));
    }
    assert(after =~= before.insert(value));
}

/// A value that is pushed into a stripe becomes the last one of the newest block, and nothing else is
/// moved.
pub proof fn law_push_goes_last<T>(contents: Seq<Seq<T>>, value: T)
    ensures
        with_pushed(contents, value).len() > 0,
        with_pushed(contents, value)[0].len() > 0,
        with_pushed(contents, value)[0].last() == value,
        needs_block(contents) ==> with_pushed(contents, value)[0] == seq![value] && with_pushed(
            contents,
            value,
        ).drop_first() == contents,
        !needs_block(contents) ==> with_pushed(contents, value)[0].drop_last() == contents[0]
            && with_pushed(contents, value).drop_first() == contents.drop_first(),
{
    if needs_block(contents) {
        assert(with_pushed(contents, value)[0] =~= seq![value]);
        assert(with_pushed(contents, value).drop_first() =~= contents);
    } else {
        assert(with_pushed(contents, value)[0].drop_last() =~= contents[0]);
        assert(with_pushed(contents, value).drop_first() =~= contents.drop_first());
    }
}

/// Pushing a value into a bucket adds that value to those of the bucket, and no other, whichever
/// stripe it goes into.
pub proof fn law_bucket_push_adds_value<T>(
    stripes: Seq<Option<Seq<Seq<T>>>>,
    index: int,
    value: T,
)
    requires
        0 <= index < stripes.len(),
    ensures
        all_values(
            stripes.update(index, Some(with_pushed(stripe_blocks(stripes[index]), value))),
        ).to_multiset() == all_values(stripes).to_multiset().insert(value),
{
    let contents = stripe_blocks(stripes[index]);
    let pushed = with_pushed(contents, value);
    let after = stripes.update(index, Some(pushed));
    lemma_all_values(stripes);
    lemma_all_values(after);
    lemma_flatten_values(parts(stripes));
    lemma_flatten_values(parts(after));
    law_push_adds_value(contents, value);
    assert(parts(after) =~= parts(stripes).update(index, pushed.flatten()));
    lemma_gather_update(parts(stripes), in_part(), index, pushed.flatten());
    let old_sum = gather(parts(stripes), in_part());
    let new_sum = gather(parts(after), in_part());
    let old_part = contents.flatten().to_multiset();
    assert(new_sum.add(old_part) == old_sum.add(old_part.insert(value)));
    assert forall|v: T| #[trigger] new_sum.count(v) == old_sum.insert(value).count(v) by {
        assert(new_sum.add(old_part).count(v) == new_sum.count(v) + old_part.count(v));
        assert(old_sum.add(old_part.insert(value)).count(v) == old_sum.count(v) + old_part.insert(
            value,
        ).count(v));
    }
    assert(new_sum =~= old_sum.insert(value));
}

/// A bucket that has been cleared has no values, and no blocks to visit.
pub proof fn law_cleared_is_empty<T>(stripes: Seq<Option<Seq<Seq<T>>>>)
    ensures
        all_values(
            stripes.map_values(|stripe: Option<Seq<Seq<T>>>| cleared(stripe)),
        ) == Seq::<T>::empty(),
        all_blocks(
            stripes.map_values(|stripe: Option<Seq<Seq<T>>>| cleared(stripe)),
        ) == Seq::<Seq<T>>::empty(),
    decreases stripes.len(),
{
    let after = stripes.map_values(|stripe: Option<Seq<Seq<T>>>| cleared(stripe));
    lemma_all_values(after);
    if stripes.len() > 0 {
        let rest = stripes.drop_first();
        law_cleared_is_empty(rest);
        let rest_after = rest.map_values(|stripe: Option<Seq<Seq<T>>>| cleared(stripe));
        lemma_all_values(rest_after);
        assert(after.drop_first() =~= rest_after);
        assert(block_parts(after).drop_first() =~= block_parts(rest_after));
        assert(block_parts(after)[0] =~= Seq::<Seq<T>>::empty());
        assert(all_blocks(after) =~= Seq::<Seq<T>>::empty());
        assert(parts(after).drop_first() =~= parts(rest_after));
        assert(parts(after)[0] =~= Seq::<T>::empty());
        assert(parts(after).flatten() =~= Seq::<T>::empty());
    } else {
        assert(parts(after).flatten() =~= Seq::<T>::empty());
        assert(all_blocks(after) =~= Seq::<Seq<T>>::empty());
    }
}

/// The contents of a stripe after values have been pushed into it, one after the other.
pub open spec fn all_pushed<T>(values: Seq<T>) -> Seq<Seq<T>>
    decreases values.len(),
{
    if values.len() == 0 {
        Seq::empty()
    } else {
        with_pushed(all_pushed(values.drop_last()), values.last())
    }
}

/// The number of blocks that a number of values takes.
pub open spec fn blocks_for(len: nat) -> nat {
    ((len + BLOCK_SIZE - 1) / BLOCK_SIZE as int) as nat
}

/// The values that go into the same block, the blocks being numbered from the oldest one.
pub open spec fn chunk<T>(values: Seq<T>, number: int) -> Seq<T> {
    values.subrange(
        number * BLOCK_SIZE,
        if (number + 1) * BLOCK_SIZE <= values.len() {
            (number + 1) * BLOCK_SIZE
        } else {
            values.len() as int
        },
    )
}

/// The order in which the values that one thread has pushed are visited: the values fill one block
/// after the other in the order in which they were pushed, and the blocks are visited newest
/// first.
pub proof fn law_single_writer_order<T>(values: Seq<T>)
    ensures
        all_pushed(values).len() == blocks_for(values.len()),
        forall|k: int|
            0 <= k < all_pushed(values).len() ==> #[trigger] all_pushed(values)[k] == chunk(
                values,
                blocks_for(values.len()) - 1 - k,
            ),
    decreases values.len(),
{
    let n = BLOCK_SIZE as int;
    assert(n > 0);
    if values.len() == 0 {
        assert(blocks_for(0) == 0) by {
            assert((n - 1) / n == 0) by (nonlinear_arith)
                requires
                    n > 0,
            ;
        }
    } else {
        let rest = values.drop_last();
        let last = values.last();
        let before = all_pushed(rest);
        let after = all_pushed(values);
        let len = rest.len() as int;
        let count = blocks_for(rest.len()) as int;
        law_single_writer_order(rest);
        // The newest block ends where the values end.
        assert(count * n >= len && (count - 1) * n < len && count >= 0) by (nonlinear_arith)
            requires
                count == (len + n - 1) / n,
                n > 0,
                len >= 0,
        ;
        assert(count * n == (count - 1) * n + n) by (nonlinear_arith);
        assert((count + 1) * n == count * n + n) by (nonlinear_arith);
        if count > 0 {
            assert(before[0] == chunk(rest, count - 1));
            assert((count - 1) * n >= 0) by (nonlinear_arith)
                requires
                    count > 0,
                    n > 0,
            ;
            assert(before[0].len() == len - (count - 1) * n);
        }
        if needs_block(before) {
            if count == 0 {
                assert(len == 0);
            }
            assert(count * n == len);
            assert(blocks_for(values.len()) == count + 1) by {
                assert((len + 1 + n - 1) / n == count + 1) by (nonlinear_arith)
                    requires
                        count * n == len,
                        n > 0,
                ;
            }
            assert(after =~= seq![seq![last]] + before);
            assert forall|k: int| 0 <= k < after.len() implies #[trigger] after[k] == chunk(
                values,
                count - k,
            ) by {
                if k == 0 {
                    assert(chunk(values, count) =~= seq![last]);
                } else {
                    assert(after[k] == before[k - 1]);
                    lemma_chunk_kept(values, count - k, count);
                }
            }
        } else {
            assert(count * n > len);
            assert(blocks_for(values.len()) == count) by {
                assert((len + 1 + n - 1) / n == count) by (nonlinear_arith)
                    requires
                        count * n >= len + 1,
                        (count - 1) * n < len,
                        n > 0,
                ;
            }
            assert(after =~= before.update(0, before[0].push(last)));
            assert forall|k: int| 0 <= k < after.len() implies #[trigger] after[k] == chunk(
                values,
                count - 1 - k,
            ) by {
                if k == 0 {
                    assert(before[0].push(last) =~= chunk(values, count - 1));
                } else {
                    assert(after[k] == before[k]);
                    assert((count - 1) * n <= len);
                    lemma_chunk_kept(values, count - 1 - k, count - 1);
                }
            }
        }
    }
}

/// A further value does not change the blocks that are already full.
proof fn lemma_chunk_kept<T>(values: Seq<T>, number: int, full: int)
    requires
        values.len() > 0,
        0 <= number < full,
        full * BLOCK_SIZE <= values.len() - 1,
    ensures
        chunk(values.drop_last(), number) == chunk(values, number),
{
    let n = BLOCK_SIZE as int;
    assert((number + 1) * n <= full * n) by (nonlinear_arith)
        requires
            number + 1 <= full,
            n > 0,
    ;
    assert(number * n >= 0 && number * n <= (number + 1) * n) by (nonlinear_arith)
        requires
            number >= 0,
            n > 0,
    ;
    assert(chunk(values.drop_last(), number) =~= chunk(values, number));
}

} // verus!
