# atomic_bucket

A bucket that many threads push values into, and that is read and cleared as a whole.

A bucket is a set of stripes, so that threads do not get into each other's way.  A stripe is a list
of blocks, newest first, and a block is a small buffer.  Pushing, reading and clearing can go on at
the same time on the same stripe: each is a sequence of atomic steps, and what the library promises
holds whatever the order in which the steps of different operations are taken.

- `src/` is the library, verified with Verus.  `lib.rs` says what is where.
- `tests/` runs the library: whole operations in `bucket.rs`, single steps in many orders in
  `interleavings.rs`, and the arithmetic of counts and stripes in `threads.rs`.
- `app/` shares a bucket between real threads.  It takes the steps of the library under a lock, one
  step at a time, and supplies what depends on the machine: the thread's ID and the available
  parallelism.

What is proved of every interleaving, among others:

- nothing is lost and nothing is duplicated, in a stripe (`law_run_keeps_values`,
  `law_quiet_run_keeps_values`) and in a whole bucket (`law_stripes_keep_values`,
  `law_quiet_stripes_keep_values`);
- no block is released while an operation may look into it (`law_held_blocks_stay`);
- a clearing operation takes the whole list that it has detached (`law_clear_takes_the_list`), after
  every write to it has ended, and is not held up by operations that come later
  (`law_drain_admits_nobody`);
- a reading operation visits the whole list that it has found, newest block first
  (`law_read_visits_the_list`);
- values keep the order of pushes that follow one another (`law_finished_pushes_come_first`,
  `law_one_writer_order`, `law_quiet_order`);
- an operation that begins after a list was detached never gets hold of it
  (`law_no_hold_is_gained`), so that a clear leaves alone what is pushed after that
  (`law_clear_leaves_later_pushes`, `law_later_push_stays`);
- pushing is lock-free (`law_push_is_lock_free`), and reading comes to an end while others keep
  pushing (`law_read_comes_to_an_end`);
- pushing never waits (`law_push_alone_finishes`), and operations never wait for each other in a
  circle (`law_no_deadlock`).

Callbacks are run through `Calls`, which keeps a ghost record of the calls, so that the contracts say
which calls a callback gets, how often, and in what order.
