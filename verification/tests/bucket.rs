use atomic_bucket::exclusive::visit_blocks;
use atomic_bucket::{AtomicBucket, Block, Calls, Stripe, BLOCK_SIZE};

// The machine and the thread of the tests that do not depend on them.
const PARALLELISM: Option<usize> = Some(8);
const THREAD: usize = 3;

#[test]
fn test_create_new_block() {
    let block: Block<u64> = Block::new();
    assert_eq!(block.len(), 0);

    let data = block.data();
    assert_eq!(data.len(), 0);
}

#[test]
fn test_block_write_then_read() {
    let mut block = Block::new();
    assert_eq!(block.len(), 0);

    let data = block.data();
    assert_eq!(data.len(), 0);

    let result = block.push(42);
    assert!(result.is_ok());
    assert_eq!(block.len(), 1);

    let data = block.data();
    assert_eq!(data.len(), 1);
    assert_eq!(data[0], 42);
}

#[test]
fn test_block_write_until_full_then_read() {
    let mut block = Block::new();
    assert_eq!(block.len(), 0);

    let data = block.data();
    assert_eq!(data.len(), 0);

    let mut i = 0;
    let mut total = 0;
    while i < BLOCK_SIZE as u64 {
        assert!(block.push(i).is_ok());

        total += i;
        i += 1;
    }

    let data = block.data();
    assert_eq!(data.len(), BLOCK_SIZE);

    let sum: u64 = data.iter().sum();
    assert_eq!(sum, total);

    let result = block.push(42);
    assert!(result.is_err());
}

#[test]
fn test_bucket_write_then_read() {
    let mut bucket = AtomicBucket::new(PARALLELISM);
    bucket.push(THREAD, 42);

    let snapshot = bucket.data();
    assert_eq!(snapshot.len(), 1);
    assert_eq!(snapshot[0], 42);
}

#[test]
fn test_bucket_multiple_blocks_write_then_read() {
    let mut bucket = AtomicBucket::new(PARALLELISM);

    let snapshot = bucket.data();
    assert_eq!(snapshot.len(), 0);

    let target = (BLOCK_SIZE * 3 + BLOCK_SIZE / 2) as u64;
    let mut i = 0;
    let mut total = 0;
    while i < target {
        bucket.push(THREAD, i);

        total += i;
        i += 1;
    }

    let snapshot = bucket.data();
    assert_eq!(snapshot.len(), target as usize);

    let sum: u64 = snapshot.iter().sum();
    assert_eq!(sum, total);
}

#[test]
fn test_bucket_single_thread_order() {
    // Blocks are visited newest first, and values within a block are in insertion order.
    let mut bucket = AtomicBucket::new(PARALLELISM);
    let target = BLOCK_SIZE * 2 + BLOCK_SIZE / 2;
    for i in 0..target {
        bucket.push(THREAD, i);
    }

    let mut expected = Vec::new();
    expected.extend(BLOCK_SIZE * 2..target);
    expected.extend(BLOCK_SIZE..BLOCK_SIZE * 2);
    expected.extend(0..BLOCK_SIZE);
    assert_eq!(bucket.data(), expected);
}

#[test]
fn test_clear_and_clear_with() {
    let mut bucket = AtomicBucket::new(PARALLELISM);

    let snapshot = bucket.data();
    assert_eq!(snapshot.len(), 0);

    let mut i = 0;
    let mut total_pushed = 0;
    while i < BLOCK_SIZE * 4 {
        bucket.push(THREAD, i);

        total_pushed += i;
        i += 1;
    }

    let snapshot = bucket.data();
    assert_eq!(snapshot.len(), i);

    let mut total_accumulated = 0;
    bucket.clear_with(|xs| total_accumulated += xs.iter().sum::<usize>());
    assert_eq!(total_pushed, total_accumulated);

    let snapshot = bucket.data();
    assert_eq!(snapshot.len(), 0);
}

#[test]
fn test_bucket_len_and_next_len() {
    let mut bucket = AtomicBucket::new(PARALLELISM);
    assert!(bucket.is_empty());

    let snapshot = bucket.data();
    assert_eq!(snapshot.len(), 0);

    // Just making sure that `is_empty` holds as we go from
    // the first block, to the second block, to exercise the
    // `Stripe::next_len` codepath.
    let mut i = 0;
    while i < BLOCK_SIZE * 2 {
        bucket.push(THREAD, i);
        assert!(!bucket.is_empty());
        i += 1;
    }
}

#[test]
fn full_block_hands_the_value_back() {
    let mut block = Block::new();
    for i in 0..BLOCK_SIZE {
        assert_eq!(block.push(i), Ok(()));
    }
    assert_eq!(block.push(7), Err(7));
    assert_eq!(block.push(8), Err(8));
    assert!(block.is_quiesced());

    let summary = block.summary();
    assert_eq!(summary.block_size, BLOCK_SIZE);
    assert_eq!(summary.write, BLOCK_SIZE + 2);
    assert_eq!(summary.len, BLOCK_SIZE);
    assert!(!summary.has_next);
}

#[test]
fn slots_become_readable_in_slot_order() {
    let mut block = Block::new();
    let first = block.claim();
    let second = block.claim();
    let third = block.claim();
    assert_eq!((first, second, third), (0, 1, 2));
    assert!(!block.is_quiesced());

    block.fill(second, 'b');
    block.publish(second);
    assert_eq!(block.len(), 0);
    block.fill(first, 'a');
    assert_eq!(block.len(), 0);
    block.publish(first);
    assert_eq!(block.data(), ['a', 'b']);
    assert!(!block.is_quiesced());
    block.fill(third, 'c');
    block.publish(third);
    assert_eq!(block.data(), ['a', 'b', 'c']);
    assert!(block.is_quiesced());
    assert_eq!(block.claimed(), 3);
}

#[test]
fn block_remembers_what_came_before() {
    let block: Block<u8> = Block::after(Some(5));
    assert_eq!(block.next(), Some(5));
    assert!(block.summary().has_next);
    assert_eq!(Block::<u8>::new().next(), None);
}

#[test]
fn threads_push_into_their_own_stripes() {
    let mut bucket = AtomicBucket::new(Some(3));
    assert_eq!(bucket.summary().stripes, 4);
    assert_eq!(bucket.summary().allocated_stripes, 0);
    bucket.push(2, 20);
    bucket.push(0, 0);
    bucket.push(6, 21);
    bucket.push(3, 30);
    assert_eq!(bucket.summary().allocated_stripes, 3);
    assert_eq!(bucket.data(), vec![0, 20, 21, 30]);

    let mut visited = Vec::new();
    bucket.data_with(|xs| visited.push(xs.to_vec()));
    assert_eq!(visited, vec![vec![0], vec![20, 21], vec![30]]);
}

#[test]
fn clearing_visits_newest_blocks_first() {
    let mut bucket = AtomicBucket::new(PARALLELISM);
    for i in 0..BLOCK_SIZE + 2 {
        bucket.push(THREAD, i);
    }
    let mut visited = Vec::new();
    bucket.clear_with(|xs| visited.push((xs[0], xs.len())));
    assert_eq!(visited, vec![(BLOCK_SIZE, 2), (0, BLOCK_SIZE)]);
    assert!(bucket.is_empty());
    assert_eq!(bucket.data(), Vec::<usize>::new());

    // A cleared bucket keeps its stripes and can be used again.
    assert_eq!(bucket.summary().allocated_stripes, 1);
    bucket.push(THREAD, 9);
    assert_eq!(bucket.data(), vec![9]);
    bucket.clear();
    assert!(bucket.is_empty());
}

#[test]
fn clearing_drops_values() {
    let counter = std::rc::Rc::new(());
    let mut bucket = AtomicBucket::new(PARALLELISM);
    for _ in 0..BLOCK_SIZE * 3 + 7 {
        bucket.push(THREAD, counter.clone());
    }
    assert_eq!(std::rc::Rc::strong_count(&counter), BLOCK_SIZE * 3 + 8);

    let mut cleared = 0;
    bucket.clear_with(|xs| cleared += xs.len());
    assert_eq!(cleared, BLOCK_SIZE * 3 + 7);
    assert_eq!(std::rc::Rc::strong_count(&counter), 1);

    bucket.push(THREAD, counter.clone());
    bucket.push(THREAD, counter.clone());
    assert_eq!(std::rc::Rc::strong_count(&counter), 3);
    drop(bucket);
    assert_eq!(std::rc::Rc::strong_count(&counter), 1);
}

#[test]
fn callbacks_get_each_block_once_and_in_order() {
    let blocks: Vec<&[i32]> = vec![&[1, 2], &[3], &[4, 5, 6]];
    let mut seen = Vec::new();
    let mut calls = Calls::new(|xs: &[i32]| seen.push(xs.to_vec()));
    visit_blocks(&blocks, &mut calls);
    calls.call(&[7]);
    assert_eq!(seen, vec![vec![1, 2], vec![3], vec![4, 5, 6], vec![7]]);
}

#[test]
fn one_callback_serves_several_visits() {
    let mut bucket = AtomicBucket::new(Some(2));
    bucket.push(1, 10);
    bucket.push(0, 20);
    let mut seen = Vec::new();
    let mut calls = Calls::new(|xs: &[i32]| seen.push(xs.to_vec()));
    bucket.visit(&mut calls);
    bucket.clear_visiting(&mut calls);
    bucket.clear_visiting(&mut calls);
    assert_eq!(seen, vec![vec![20], vec![10], vec![20], vec![10]]);
    assert!(bucket.is_empty());
}

#[test]
fn callback_is_given_back() {
    let mut bucket = AtomicBucket::new(PARALLELISM);
    bucket.push(THREAD, 5);
    let mut sum = 0;
    let mut calls = bucket.data_with(|xs: &[i32]| sum += xs.iter().sum::<i32>());
    calls.call(&[100]);
    assert_eq!(sum, 105);
}

#[test]
fn stripe_is_visited_newest_block_first() {
    let mut stripe = Stripe::new();
    for i in 0..BLOCK_SIZE + 1 {
        stripe.push(i);
    }
    let mut seen = Vec::new();
    stripe.data_with(&mut Calls::new(|xs: &[usize]| seen.push(xs.len())));
    stripe.clear_with(&mut Calls::new(|xs: &[usize]| seen.push(xs.len())));
    stripe.clear_with(&mut Calls::new(|xs: &[usize]| seen.push(xs.len())));
    assert_eq!(seen, vec![1, BLOCK_SIZE, 1, BLOCK_SIZE]);
    assert!(stripe.is_empty());
}

#[test]
fn threads_stay_with_their_stripe() {
    let mut bucket = AtomicBucket::new(Some(4));
    for round in 0..3 {
        bucket.push(2, round);
        bucket.push(6, round + 100);
        assert_eq!(bucket.summary().allocated_stripes, 1);
        assert_eq!(bucket.data(), vec![round, round + 100]);
        bucket.clear();
        assert_eq!(bucket.summary().allocated_stripes, 1);
    }
    bucket.push(3, 0);
    assert_eq!(bucket.summary().allocated_stripes, 2);
    assert_eq!(bucket.summary().stripes, 4);
}
