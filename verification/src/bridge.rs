//! The decisions of the worker that drains a producer into a bounded queue.
//!
//! The worker pulls one step from its producer, decides here what to do with
//! it, does it, and decides here from the outcome whether to go on. Whoever
//! runs the worker performs the actions; this module only decides.

use crate::error::MpscSendError;
use tokio::sync::mpsc::error::{ClosedError, SendError};
use vstd::prelude::*;

verus! {

/// What the worker does with one step of its producer.
#[derive(Debug, PartialEq, Eq)]
pub enum Action<T> {
    /// Put the item into the queue, waiting for room where the queue is full.
    Send(T),
    /// Check, without waiting, that the read end of the queue is still there.
    Probe,
    /// Release the write end: the producer is exhausted.
    Finish,
}

/// The action that a step calls for: an item is sent, a step without an
/// item is answered by a probe, and the end of the producer ends the worker.
pub open spec fn action_for<T>(step: Option<Option<T>>) -> Action<T> {
    match step {
        None => Action::Finish,
        Some(None) => Action::Probe,
        Some(Some(item)) => Action::Send(item),
    }
}

/// A step of a producer whose every step is an item.
pub open spec fn plain_step<T>(pulled: Option<T>) -> Option<Option<T>> {
    match pulled {
        None => None,
        Some(item) => Some(Some(item)),
    }
}

/// Decides what to do with what a producer gave whose steps may lack an item.
pub fn plan_step<T>(step: Option<Option<T>>) -> (action: Action<T>)
    ensures
        action == action_for(step),
{
    match step {
        None => Action::Finish,
        Some(None) => Action::Probe,
        Some(Some(item)) => Action::Send(item),
    }
}

/// Decides what to do with what a producer gave whose every step is an item.
pub fn plan_item<T>(pulled: Option<T>) -> (action: Action<T>)
    ensures
        action == action_for(plain_step(pulled)),
        !(action is Probe),
{
    match pulled {
        None => Action::Finish,
        Some(item) => Action::Send(item),
    }
}

/// How the worker stands after an action.
#[derive(Debug, PartialEq, Eq)]
pub enum Verdict<T> {
    /// The queue took the item, or the probe found the read end: pull again.
    Continue,
    /// The queue turned the worker down: stop, and pull nothing more. The
    /// cause, with the item where it came back, stays with the worker.
    Halt(MpscSendError<T>),
}

/// The verdict that an outcome calls for.
pub open spec fn verdict_for<T>(outcome: Result<(), MpscSendError<T>>) -> Verdict<T> {
    match outcome {
        Ok(()) => Verdict::Continue,
        Err(cause) => Verdict::Halt(cause),
    }
}

/// Decides from the outcome of a send or a probe whether the worker goes on.
/// Every cause of a rejection stops it.
pub fn settle<T>(outcome: Result<(), MpscSendError<T>>) -> (verdict: Verdict<T>)
    ensures
        verdict == verdict_for(outcome),
{
    match outcome {
        Ok(()) => Verdict::Continue,
        Err(cause) => Verdict::Halt(cause),
    }
}

/// The outcome of a send, as the queue reports it.
pub open spec fn send_report<T>(sent: Result<(), SendError<T>>) -> Result<(), MpscSendError<T>> {
    match sent {
        Ok(()) => Ok(()),
        Err(err) => Err(MpscSendError::Closed(err.0)),
    }
}

/// Reads what the queue answered to a send: the queue took the item, or the
/// read end is gone and the item comes back.
pub fn sent<T>(answer: Result<(), SendError<T>>) -> (outcome: Result<(), MpscSendError<T>>)
    ensures
        outcome == send_report(answer),
{
    match answer {
        Ok(()) => Ok(()),
        Err(err) => Err(MpscSendError::from(err)),
    }
}

/// The outcome of a probe, from one poll of the write end: `None` where the
/// poll is pending.
pub open spec fn probe_report<T>(polled: Option<Result<(), ClosedError>>) -> Result<
    (),
    MpscSendError<T>,
> {
    match polled {
        Some(Err(_)) => Err(MpscSendError::ClosedNoValue),
        _ => Ok(()),
    }
}

/// Reads one poll of the write end as the outcome of a probe. The probe does
/// not wait: a poll that is pending shows a queue that is full and a read end
/// that is still there, and counts as success. Only a read end that is gone
/// fails the probe.
pub fn probed<T>(polled: Option<Result<(), ClosedError>>) -> (outcome: Result<
    (),
    MpscSendError<T>,
>)
    ensures
        outcome == probe_report::<T>(polled),
{
    match polled {
        Some(Err(err)) => Err(MpscSendError::from(err)),
        _ => Ok(()),
    }
}

} // verus!
