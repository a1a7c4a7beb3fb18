//! A bucket that many threads push values into, and that is read and cleared as a whole.
//!
//! [`AtomicBucket`] is the bucket, for whoever has it to themselves.  Its parts can be shared: a
//! [`Stripe`] takes operations apart into atomic steps, so that pushing, reading and clearing can
//! go on at the same time, in any interleaving.
//!
//! - [`block`] and [`heap`] hold the values, [`gate`] counts the operations in flight.
//! - [`model`] says what each step does, and [`protocol`] what holds at every moment.
//! - [`steps`], [`laws`] and [`runs`] prove what holds under every interleaving, [`lines`] and
//!   [`places`] in what order values end up, [`probes`], [`reads`] and [`clears`] what finished
//!   operations have answered, seen and handed out, [`alone`] what an operation does that is left
//!   alone, and [`pace`] how operations get on that are not.
//! - [`stripe`] takes the steps, [`exclusive`] runs whole operations, and [`calls`] and [`sealed`]
//!   keep the record of what a callback is called with.
//! - [`bucket`] and [`threads`] spread the values over stripes, and [`order`] and [`history`] prove
//!   what a bucket promises of its values.
//! - [`backoff`] and [`padded`] are what is used of `crossbeam_utils`, and [`sums`] is about sums.
pub mod alone;
pub mod backoff;
pub mod block;
pub mod bucket;
pub mod calls;
pub mod clears;
pub mod exclusive;
pub mod gate;
pub mod heap;
pub mod history;
pub mod laws;
pub mod lines;
pub mod model;
pub mod order;
pub mod pace;
pub mod padded;
pub mod places;
pub mod probes;
pub mod protocol;
pub mod reads;
pub mod runs;
pub mod sealed;
pub mod steps;
pub mod stripe;
pub mod sums;
pub mod threads;

pub use block::{Block, BLOCK_SIZE};
pub use bucket::AtomicBucket;
pub use calls::Calls;
pub use stripe::{Progress, Stripe};
