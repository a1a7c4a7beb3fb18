//! Waiting, with `crossbeam_utils::Backoff`.
use crate::stripe::Progress;
use crossbeam_utils::Backoff;
use vstd::prelude::*;

verus! {

/// `crossbeam_utils::Backoff`: the state of a wait, of which nothing is known here.
#[verifier::external_type_specification]
#[verifier::external_body]
pub struct ExBackoff(crossbeam_utils::Backoff);

/// `crossbeam_utils::Backoff::new` gives a wait that has not begun.  Nothing is claimed of it: how
/// long it has gone on affects only how much time the next call of `snooze` takes.
pub assume_specification[ crossbeam_utils::Backoff::new ]() -> Backoff;

/// `crossbeam_utils::Backoff::snooze` lets some time pass, by spinning or by yielding the thread,
/// and returns.  It has no result, and nothing is claimed of what has happened in the meantime.
pub assume_specification[ crossbeam_utils::Backoff::snooze ](backoff: &Backoff);

/// Lets some time pass if an operation has to wait for another one.
pub fn pause(progress: Progress, backoff: &Backoff) -> (waited: bool)
    ensures
        waited == (progress == Progress::Waiting),
{
    if progress == Progress::Waiting {
        backoff.snooze();
        true
    } else {
        false
    }
}

} // verus!
