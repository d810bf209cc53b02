//! How an execution of the language server ends: which of the errors of its last steps is its
//! outcome, and the time that its messages are stamped with.

use vstd::prelude::*;

verus! {

/// The outcome of the three steps that end an execution: sending the finish message, closing
/// the web socket, and shutting the child process down. The error of the first step that
/// failed is the outcome; the errors of later steps give way to it.
pub open spec fn finish_outcome_spec<E>(
    finished: Result<(), E>,
    closed: Result<(), E>,
    shutdown: Result<(), E>,
) -> Result<(), E> {
    if finished is Err {
        finished
    } else if closed is Err {
        closed
    } else {
        shutdown
    }
}

/// Returns the outcome of the three steps that end an execution.
pub fn finish_outcome<E>(
    finished: Result<(), E>,
    closed: Result<(), E>,
    shutdown: Result<(), E>,
) -> (outcome: Result<(), E>)
    ensures
        outcome == finish_outcome_spec(finished, closed, shutdown),
{
    match finished {
        // The finish message was not sent: this error counts, whatever came of the rest
        Err(err) => Err(err),
        Ok(_) => match closed {
            // The web socket was not closed: this error comes before that of the shutdown
            Err(err) => Err(err),
            Ok(_) => shutdown,
        },
    }
}

/// Returns the time stamp for a time in seconds since the epoch: a time before the epoch is
/// stamped as the epoch.
pub fn timestamp_from(seconds: i64) -> (stamp: u64)
    ensures
        stamp == if seconds < 0 {
            0
        } else {
            seconds as int
        },
{
    if seconds < 0 {
        0
    } else {
        seconds as u64
    }
}

} // verus!
