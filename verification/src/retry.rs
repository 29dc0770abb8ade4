//! The retry shell: what to do after a run of the driver has ended.
//!
//! A run that fails for want of an answer from the chain, or because the
//! store could not be written, is started again, any number of times, from
//! what the store then holds. A store that cannot be read back is never
//! trusted again: the scan stops with that error.
use vstd::prelude::*;
use crate::driver::{Driver, Fault, Phase};
use crate::store::CorruptStateError;

verus! {

/// Why a run ended before it was complete.
#[derive(Clone, Copy, Debug, PartialEq, Eq)]
pub enum RunError {
    /// The chain did not answer.
    Source,
    /// The store could not be written.
    Store,
    /// The store could not be read back.
    CorruptState(CorruptStateError),
}

/// What the shell does next.
#[derive(Clone, Copy, Debug, PartialEq, Eq)]
pub enum Verdict {
    /// Every event was recorded: stop.
    Completed,
    /// Start another run.
    Retry,
    /// Stop with the error: the store cannot be trusted.
    Fatal(CorruptStateError),
}

/// How a run that is over has ended, and `None` for a run that is not over.
pub open spec fn outcome_of(driver: Driver) -> Option<Result<(), RunError>> {
    match driver.phase {
        Phase::Done => Some(Ok(())),
        Phase::Failed { fault: Fault::Source } => Some(Err(RunError::Source)),
        Phase::Failed { fault: Fault::Store } => Some(Err(RunError::Store)),
        _ => None,
    }
}

/// Says how a run has ended, if it is over.
pub fn run_outcome(driver: &Driver) -> (outcome: Option<Result<(), RunError>>)
    ensures
        outcome == outcome_of(*driver),
{
    match driver.phase {
        Phase::Done => Some(Ok(())),
        Phase::Failed { fault: Fault::Source } => Some(Err(RunError::Source)),
        Phase::Failed { fault: Fault::Store } => Some(Err(RunError::Store)),
        _ => None,
    }
}

/// The verdict on the outcome of a run.
pub open spec fn verdict_of(outcome: Result<(), RunError>) -> Verdict {
    match outcome {
        Ok(_) => Verdict::Completed,
        Err(RunError::CorruptState(error)) => Verdict::Fatal(error),
        Err(_) => Verdict::Retry,
    }
}

/// Decides what to do after a run that ended with `outcome`.
pub fn after_run(outcome: Result<(), RunError>) -> (verdict: Verdict)
    ensures
        verdict == verdict_of(outcome),
{
    match outcome {
        Ok(_) => Verdict::Completed,
        Err(RunError::CorruptState(error)) => Verdict::Fatal(error),
        Err(_) => Verdict::Retry,
    }
}

/// Only a complete run and a store that cannot be read back end the scan;
/// every other failure is retried.
pub proof fn lemma_retry_unless_done_or_corrupt(outcome: Result<(), RunError>)
    ensures
        verdict_of(outcome) is Retry <==> (outcome == Err::<(), RunError>(RunError::Source)
            || outcome == Err::<(), RunError>(RunError::Store)),
        verdict_of(outcome) is Completed <==> outcome is Ok,
{
}

} // verus!
