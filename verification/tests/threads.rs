use atomic_bucket::gate::{
    count_of, count_unit, phase_of, Gate, COUNT_BITS, COUNT_MASK, PHASE_BIT,
};
use atomic_bucket::threads::{
    current_stripe_index, stripe_count, stripe_index, MAX_STRIPES, UNASSIGNED,
};

#[test]
fn stripe_count_rounds_up() {
    assert_eq!(stripe_count(None), 1);
    assert_eq!(stripe_count(Some(1)), 1);
    assert_eq!(stripe_count(Some(2)), 2);
    assert_eq!(stripe_count(Some(3)), 4);
    assert_eq!(stripe_count(Some(64)), 64);
    assert_eq!(stripe_count(Some(65)), 128);
    assert_eq!(stripe_count(Some(256)), 256);
    assert_eq!(stripe_count(Some(257)), MAX_STRIPES);
    assert_eq!(stripe_count(Some(100_000)), 256);
}

#[test]
fn first_threads_land_on_distinct_stripes() {
    let count = stripe_count(Some(8));
    let mut next_id = 0;
    let mut seen = Vec::new();
    for _ in 0..count {
        let mut id = UNASSIGNED;
        seen.push(current_stripe_index(&mut id, &mut next_id, count));
    }
    assert_eq!(seen, vec![0, 1, 2, 3, 4, 5, 6, 7]);
    assert_eq!(next_id, 8);
}

#[test]
fn threads_keep_their_stripe() {
    let mut id = UNASSIGNED;
    let mut next_id = 13;
    assert_eq!(current_stripe_index(&mut id, &mut next_id, 8), 5);
    assert_eq!((id, next_id), (13, 14));
    assert_eq!(current_stripe_index(&mut id, &mut next_id, 8), 5);
    assert_eq!((id, next_id), (13, 14));
    assert_eq!(current_stripe_index(&mut id, &mut next_id, 4), 1);
    assert_eq!(stripe_index(513, 256), 1);
    assert_eq!(stripe_index(5000, 4096), 904);
}

#[test]
fn word_holds_the_phase_and_two_counts() {
    assert_eq!(phase_of(0), 0);
    assert_eq!(phase_of(PHASE_BIT), 1);
    assert_eq!(count_unit(0), 1);
    assert_eq!(count_unit(1), COUNT_MASK + 1);
    let word = PHASE_BIT + 3 * count_unit(1) + 5;
    assert_eq!(phase_of(word), 1);
    assert_eq!(count_of(word, 0), 5);
    assert_eq!(count_of(word, 1), 3);
    assert_eq!(2 * COUNT_BITS + 2, usize::BITS);
    assert_eq!(PHASE_BIT, 1 << (usize::BITS - 1));
    assert_eq!(COUNT_MASK, (1 << COUNT_BITS) - 1);
}

#[test]
fn gate_counts_arrivals_in_their_phase() {
    let mut gate = Gate::new();
    assert_eq!(gate.current(), 0);
    assert!(gate.arrive(0));
    assert!(gate.arrive(0));
    assert_eq!(gate.flip(), 0);
    assert_eq!(gate.current(), 1);

    // A stale guess is counted in the old phase, but not as current.
    assert!(!gate.arrive(0));
    gate.leave(0);
    assert!(gate.arrive(1));
    assert!(!gate.is_drained(0));
    gate.leave(0);
    gate.leave(0);
    assert!(gate.is_drained(0));
    assert!(!gate.is_drained(1));
    gate.leave(1);
    assert!(gate.is_drained(1));
    assert_eq!(gate.flip(), 1);
}

#[test]
fn flipping_changes_the_phase_bit_alone() {
    let mut gate = Gate::new();
    assert!(gate.arrive(0));
    gate.flip();
    gate.leave(0);
    assert_eq!(gate.current(), 1);
    assert!(gate.is_drained(0));
    assert!(gate.is_drained(1));
}
