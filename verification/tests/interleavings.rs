use atomic_bucket::backoff::pause;
use atomic_bucket::{Block, Calls, Progress, Stripe, BLOCK_SIZE};
use crossbeam_utils::Backoff;

// Takes steps of an operation until it is finished.
fn run<T>(stripe: &mut Stripe<T>, ticket: usize) -> Option<bool> {
    while stripe.step(ticket) != Progress::Finished {}
    stripe.finish(ticket)
}

// Takes steps of an operation until it gets on in the given way.
fn run_until<T>(stripe: &mut Stripe<T>, ticket: usize, progress: Progress) {
    while stripe.step(ticket) != progress {}
}

fn contents<T: Clone>(stripe: &Stripe<T>) -> Vec<Vec<T>> {
    stripe.blocks().iter().map(|block| block.to_vec()).collect()
}

// A small generator of numbers that look random.
struct Dice(u64);

impl Dice {
    fn roll(&mut self, sides: usize) -> usize {
        self.0 = self.0.wrapping_mul(6364136223846793005).wrapping_add(1442695040888963407);
        (self.0 >> 33) as usize % sides
    }
}

#[test]
fn steps_of_a_push_add_up() {
    let mut stripe = Stripe::new();
    let ticket = stripe.begin_push('x');
    let mut steps = 1;
    while stripe.step(ticket) == Progress::Running {
        steps += 1;
    }
    // Guess, arrive, load, allocate, install, claim, fill, publish, exit.
    assert_eq!(steps, 9);
    assert_eq!(stripe.finish(ticket), None);
    assert_eq!(contents(&stripe), vec![vec!['x']]);
}

#[test]
fn racing_writers_share_the_first_block() {
    let mut stripe = Stripe::new();
    let first = stripe.begin_push(1);
    let second = stripe.begin_push(2);
    // Both find no block, and make one.
    for _ in 0..4 {
        stripe.step(first);
        stripe.step(second);
    }
    run(&mut stripe, second);
    run(&mut stripe, first);
    assert_eq!(contents(&stripe), vec![vec![2, 1]]);
}

#[test]
fn racing_writers_extend_a_full_block_once() {
    let mut stripe = Stripe::new();
    for i in 0..BLOCK_SIZE {
        stripe.push(i);
    }
    let first = stripe.begin_push(100);
    let second = stripe.begin_push(200);
    // Both find the block full, and make another one.
    for _ in 0..5 {
        stripe.step(first);
        stripe.step(second);
    }
    run(&mut stripe, second);
    run(&mut stripe, first);
    let blocks = contents(&stripe);
    assert_eq!(blocks.len(), 2);
    assert_eq!(blocks[0], vec![200, 100]);
    assert_eq!(blocks[1].len(), BLOCK_SIZE);
}

#[test]
fn clearing_waits_for_a_writer_and_takes_its_value() {
    let mut stripe = Stripe::new();
    stripe.push(1);
    let writer = stripe.begin_push(2);
    // The writer claims a slot, and stops before it writes.
    for _ in 0..4 {
        assert_eq!(stripe.step(writer), Progress::Running);
    }
    let clearer = stripe.begin_clear();
    for _ in 0..3 {
        assert_eq!(stripe.step(clearer), Progress::Running);
    }
    let backoff = Backoff::new();
    for _ in 0..10 {
        let progress = stripe.step(clearer);
        assert_eq!(progress, Progress::Waiting);
        assert!(pause(progress, &backoff));
    }
    assert!(!pause(Progress::Running, &backoff));

    // A writer that comes later is not waited for, and is not cleared.
    let late = stripe.begin_push(3);
    run(&mut stripe, late);
    assert_eq!(stripe.step(clearer), Progress::Waiting);

    run(&mut stripe, writer);
    run_until(&mut stripe, clearer, Progress::HandingOver);
    let taken: Vec<Block<i32>> = stripe.hand_over(clearer);
    assert_eq!(taken.len(), 1);
    assert_eq!(taken[0].data(), [1, 2]);
    run(&mut stripe, clearer);
    assert_eq!(contents(&stripe), vec![vec![3]]);
}

#[test]
fn clearing_operations_take_turns() {
    let mut stripe = Stripe::new();
    stripe.push('a');
    let first = stripe.begin_clear();
    let second = stripe.begin_clear();
    assert_eq!(stripe.step(first), Progress::Running);
    assert_eq!(stripe.step(second), Progress::Waiting);
    run_until(&mut stripe, first, Progress::HandingOver);
    assert_eq!(stripe.step(second), Progress::Waiting);
    assert_eq!(stripe.hand_over(first).len(), 1);
    run(&mut stripe, first);
    assert_eq!(stripe.step(second), Progress::Running);
    run_until(&mut stripe, second, Progress::HandingOver);
    assert_eq!(stripe.hand_over(second).len(), 0);
    run(&mut stripe, second);
    assert!(stripe.is_empty());
}

#[test]
fn stale_guess_of_the_phase_is_taken_back() {
    let mut stripe = Stripe::new();
    stripe.push(1);
    let writer = stripe.begin_push(2);
    // The writer loads the phase, and a clear flips it.
    stripe.step(writer);
    let clearer = stripe.begin_clear();
    run_until(&mut stripe, clearer, Progress::HandingOver);
    assert_eq!(stripe.hand_over(clearer).len(), 1);
    run(&mut stripe, clearer);
    run(&mut stripe, writer);
    assert_eq!(contents(&stripe), vec![vec![2]]);
    // The counts are back at zero, so that the next clear does not wait.
    assert_eq!(stripe.detach().len(), 1);
}

#[test]
fn reading_waits_for_writes_in_flight() {
    let mut stripe = Stripe::new();
    stripe.push('a');
    let writer = stripe.begin_push('b');
    for _ in 0..5 {
        assert_eq!(stripe.step(writer), Progress::Running);
    }
    let reader = stripe.begin_read();
    for _ in 0..4 {
        assert_eq!(stripe.step(reader), Progress::Running);
    }
    assert_eq!(stripe.step(reader), Progress::Waiting);
    run(&mut stripe, writer);
    run_until(&mut stripe, reader, Progress::Visiting);
    assert_eq!(stripe.visited(reader), ['a', 'b']);
    run(&mut stripe, reader);
    assert_eq!(contents(&stripe), vec![vec!['a', 'b']]);
}

#[test]
fn abandoned_reading_does_not_block_clearing() {
    let mut stripe = Stripe::new();
    for i in 0..BLOCK_SIZE * 2 {
        stripe.push(i);
    }
    let reader = stripe.begin_read();
    run_until(&mut stripe, reader, Progress::Visiting);
    assert_eq!(stripe.visited(reader).len(), BLOCK_SIZE);
    stripe.abandon(reader);
    run(&mut stripe, reader);

    assert_eq!(stripe.detach().len(), 2);
    assert!(stripe.is_empty());
    stripe.push(42);
    assert_eq!(contents(&stripe), vec![vec![42]]);
}

#[test]
fn emptiness_is_found_step_by_step() {
    let mut stripe = Stripe::new();
    let ticket = stripe.begin_is_empty();
    assert_eq!(run(&mut stripe, ticket), Some(true));
    stripe.push(1);
    let ticket = stripe.begin_is_empty();
    assert_eq!(run(&mut stripe, ticket), Some(false));

    // A fresh block that nothing has been written to yet does not hide the one before it.
    for i in 1..BLOCK_SIZE {
        stripe.push(i);
    }
    let writer = stripe.begin_push(0);
    for _ in 0..6 {
        assert_eq!(stripe.step(writer), Progress::Running);
    }
    let ticket = stripe.begin_is_empty();
    assert_eq!(run(&mut stripe, ticket), Some(false));
    run(&mut stripe, writer);
    assert_eq!(contents(&stripe).len(), 2);
}

#[test]
fn tickets_are_given_out_again() {
    let mut stripe = Stripe::new();
    assert!(stripe.may_begin());
    let first = stripe.begin_push(1);
    let second = stripe.begin_push(2);
    assert_eq!((first, second), (0, 1));
    run(&mut stripe, first);
    assert_eq!(stripe.begin_push(3), 0);
    run(&mut stripe, 0);
    run(&mut stripe, second);
    assert_eq!(contents(&stripe), vec![vec![1, 3, 2]]);
}

// Many writers, readers and clearers, one step at a time in a random order: nothing may be lost
// or duplicated.
#[test]
fn many_writers_with_interleaved_clears() {
    const WRITERS: usize = 12;
    const PER_WRITER: usize = 400;

    let mut dice = Dice(2024);
    let mut stripe: Stripe<usize> = Stripe::new();
    let mut pushed = vec![0; WRITERS];
    let mut writers: Vec<Option<usize>> = vec![None; WRITERS];
    let mut clearers: Vec<Option<usize>> = vec![None; 3];
    let mut readers: Vec<Option<usize>> = vec![None; 2];
    let mut seen = vec![0u32; WRITERS * PER_WRITER];

    while pushed.iter().any(|n| *n < PER_WRITER) {
        let who = dice.roll(WRITERS + 5);
        if who < WRITERS {
            match writers[who] {
                None if pushed[who] < PER_WRITER => {
                    writers[who] = Some(stripe.begin_push(who * PER_WRITER + pushed[who]));
                    pushed[who] += 1;
                }
                None => {}
                Some(ticket) => {
                    if stripe.step(ticket) == Progress::Finished {
                        stripe.finish(ticket);
                        writers[who] = None;
                    }
                }
            }
        } else if who < WRITERS + 3 {
            let clearer = &mut clearers[who - WRITERS];
            match *clearer {
                None => {
                    if dice.roll(50) == 0 {
                        *clearer = Some(stripe.begin_clear());
                    }
                }
                Some(ticket) => match stripe.step(ticket) {
                    Progress::HandingOver => {
                        for block in stripe.hand_over(ticket) {
                            assert!(block.is_quiesced());
                            for value in block.data() {
                                seen[*value] += 1;
                            }
                        }
                    }
                    Progress::Finished => {
                        stripe.finish(ticket);
                        *clearer = None;
                    }
                    _ => {}
                },
            }
        } else {
            let reader = &mut readers[who - WRITERS - 3];
            match *reader {
                None => *reader = Some(stripe.begin_read()),
                Some(ticket) => match stripe.step(ticket) {
                    Progress::Visiting => {
                        for value in stripe.visited(ticket) {
                            assert!(*value < WRITERS * PER_WRITER);
                        }
                    }
                    Progress::Finished => {
                        stripe.finish(ticket);
                        *reader = None;
                    }
                    _ => {}
                },
            }
        }
    }

    // Everybody finishes, writers and readers first.
    for ticket in writers.into_iter().chain(readers).flatten() {
        run(&mut stripe, ticket);
    }
    let mut waiting: Vec<usize> = clearers.into_iter().flatten().collect();
    while !waiting.is_empty() {
        let mut still = Vec::new();
        for ticket in waiting {
            match stripe.step(ticket) {
                Progress::HandingOver => {
                    for block in stripe.hand_over(ticket) {
                        for value in block.data() {
                            seen[*value] += 1;
                        }
                    }
                    still.push(ticket);
                }
                Progress::Finished => {
                    stripe.finish(ticket);
                }
                _ => still.push(ticket),
            }
        }
        waiting = still;
    }

    // Pick up whatever was written after the last clear.
    stripe.clear_with(&mut Calls::new(|xs: &[usize]| {
        for value in xs {
            seen[*value] += 1;
        }
    }));
    assert!(seen.iter().all(|times| *times == 1));
    assert!(stripe.is_empty());
}

#[test]
fn reading_goes_on_over_new_blocks_and_a_clear() {
    let mut stripe = Stripe::new();
    for i in 0..BLOCK_SIZE + 1 {
        stripe.push(i);
    }
    let reader = stripe.begin_read();
    run_until(&mut stripe, reader, Progress::Visiting);
    assert_eq!(stripe.visited(reader), [BLOCK_SIZE]);

    // What the reader has been given only grows while it looks at it.
    let writer = stripe.begin_push(BLOCK_SIZE + 1);
    run(&mut stripe, writer);
    assert_eq!(stripe.visited(reader), [BLOCK_SIZE, BLOCK_SIZE + 1]);

    // The list that the reader has found is detached, but stays where it is.
    let clearer = stripe.begin_clear();
    for _ in 0..3 {
        assert_eq!(stripe.step(clearer), Progress::Running);
    }
    assert_eq!(stripe.step(clearer), Progress::Waiting);
    let late = stripe.begin_push(7);
    run(&mut stripe, late);

    run_until(&mut stripe, reader, Progress::Visiting);
    assert_eq!(stripe.visited(reader), (0..BLOCK_SIZE).collect::<Vec<_>>());
    assert_eq!(stripe.step(clearer), Progress::Waiting);
    run(&mut stripe, reader);

    run_until(&mut stripe, clearer, Progress::HandingOver);
    let taken: Vec<usize> = stripe.hand_over(clearer).iter().map(|block| block.data().len()).collect();
    assert_eq!(taken, vec![2, BLOCK_SIZE]);
    run(&mut stripe, clearer);
    assert_eq!(contents(&stripe), vec![vec![7]]);
}

#[test]
fn write_in_flight_can_hide_values() {
    // The first slot of the second block is claimed, and not written.
    let mut stripe = Stripe::new();
    for i in 0..BLOCK_SIZE {
        stripe.push(i);
    }
    let slow = stripe.begin_push(1000);
    for _ in 0..7 {
        assert_eq!(stripe.step(slow), Progress::Running);
    }
    // Others fill that block, and one attaches a third block, and has not written to it yet.
    for i in 1..BLOCK_SIZE {
        let writer = stripe.begin_push(i);
        run(&mut stripe, writer);
    }
    let last = stripe.begin_push(2000);
    for _ in 0..6 {
        assert_eq!(stripe.step(last), Progress::Running);
    }
    let ticket = stripe.begin_is_empty();
    assert_eq!(run(&mut stripe, ticket), Some(true));

    run(&mut stripe, slow);
    let ticket = stripe.begin_is_empty();
    assert_eq!(run(&mut stripe, ticket), Some(false));
    run(&mut stripe, last);
    assert!(!stripe.is_empty());
    assert_eq!(contents(&stripe).iter().map(Vec::len).collect::<Vec<_>>(), vec![1, BLOCK_SIZE, BLOCK_SIZE]);
}

// Writers push while clearing goes on, one step at a time in a random order: what is handed over,
// oldest block first, has the values of each writer in the order of its pushes.
#[test]
fn writers_keep_their_order() {
    const WRITERS: usize = 5;
    const PER_WRITER: usize = 300;

    let mut dice = Dice(7);
    let mut stripe: Stripe<(usize, usize)> = Stripe::new();
    let mut pushed = vec![0; WRITERS];
    let mut writers: Vec<Option<usize>> = vec![None; WRITERS];
    let mut clearer: Option<usize> = None;
    let mut out: Vec<(usize, usize)> = Vec::new();

    while pushed.iter().any(|n| *n < PER_WRITER) || writers.iter().any(Option::is_some) {
        let who = dice.roll(WRITERS + 1);
        if who < WRITERS {
            match writers[who] {
                None if pushed[who] < PER_WRITER => {
                    writers[who] = Some(stripe.begin_push((who, pushed[who])));
                    pushed[who] += 1;
                }
                None => {}
                Some(ticket) => {
                    if stripe.step(ticket) == Progress::Finished {
                        stripe.finish(ticket);
                        writers[who] = None;
                    }
                }
            }
        } else if let Some(ticket) = clearer {
            match stripe.step(ticket) {
                Progress::HandingOver => {
                    for block in stripe.hand_over(ticket).iter().rev() {
                        assert!(!block.data().is_empty());
                        out.extend_from_slice(block.data());
                    }
                }
                Progress::Finished => {
                    stripe.finish(ticket);
                    clearer = None;
                }
                _ => {}
            }
        } else if dice.roll(40) == 0 {
            clearer = Some(stripe.begin_clear());
        }
    }
    if let Some(ticket) = clearer {
        loop {
            match stripe.step(ticket) {
                Progress::HandingOver => {
                    for block in stripe.hand_over(ticket).iter().rev() {
                        out.extend_from_slice(block.data());
                    }
                }
                Progress::Finished => break,
                _ => {}
            }
        }
        stripe.finish(ticket);
    }
    for block in stripe.detach().iter().rev() {
        out.extend_from_slice(block.data());
    }

    assert_eq!(out.len(), WRITERS * PER_WRITER);
    for who in 0..WRITERS {
        let values: Vec<usize> = out.iter().filter(|v| v.0 == who).map(|v| v.1).collect();
        assert_eq!(values, (0..PER_WRITER).collect::<Vec<_>>());
    }
}

#[test]
fn detached_list_is_out_of_reach_of_later_operations() {
    let mut stripe = Stripe::new();
    stripe.push(1);
    let clearer = stripe.begin_clear();
    // The list is detached, and the phase has not been flipped yet.
    for _ in 0..2 {
        assert_eq!(stripe.step(clearer), Progress::Running);
    }
    let writer = stripe.begin_push(2);
    run(&mut stripe, writer);
    let reader = stripe.begin_read();
    run_until(&mut stripe, reader, Progress::Visiting);
    assert_eq!(stripe.visited(reader), [2]);
    run(&mut stripe, reader);
    run_until(&mut stripe, clearer, Progress::HandingOver);
    assert_eq!(stripe.hand_over(clearer)[0].data(), [1]);
    run(&mut stripe, clearer);
    assert_eq!(contents(&stripe), vec![vec![2]]);
}

#[test]
fn several_stripes_keep_all_values() {
    let mut dice = Dice(99);
    let mut stripes: Vec<Stripe<usize>> = (0..4).map(|_| Stripe::new()).collect();
    let mut in_flight: Vec<(usize, usize)> = Vec::new();
    let mut seen = vec![0u32; 2000];
    for value in 0..seen.len() {
        let index = dice.roll(stripes.len());
        in_flight.push((index, stripes[index].begin_push(value)));
        for _ in 0..12 {
            if !in_flight.is_empty() {
                let which = dice.roll(in_flight.len());
                let (index, ticket) = in_flight[which];
                if stripes[index].step(ticket) == Progress::Finished {
                    stripes[index].finish(ticket);
                    in_flight.swap_remove(which);
                }
            }
        }
        if dice.roll(100) == 0 && in_flight.is_empty() {
            for block in stripes[index].detach() {
                for value in block.data() {
                    seen[*value] += 1;
                }
            }
        }
    }
    for (index, ticket) in in_flight {
        run(&mut stripes[index], ticket);
    }
    for stripe in &stripes {
        for block in stripe.blocks() {
            for value in block {
                seen[*value] += 1;
            }
        }
    }
    assert!(seen.iter().all(|times| *times == 1));
}

#[test]
fn push_is_put_back_only_by_progress_of_others() {
    let mut stripe = Stripe::new();
    let slow = stripe.begin_push(0);
    for _ in 0..2 {
        assert_eq!(stripe.step(slow), Progress::Running);
    }
    // Readers and probes do not put a push back: it takes the steps that it had left.
    let reader = stripe.begin_read();
    run(&mut stripe, reader);
    let probe = stripe.begin_is_empty();
    assert_eq!(run(&mut stripe, probe), Some(true));
    let mut steps = 1;
    while stripe.step(slow) == Progress::Running {
        steps += 1;
    }
    assert_eq!(steps, 7);
    stripe.finish(slow);
}
