//! The ways in which the write end of a bounded queue turns an item down,
//! brought under one type.

use tokio::sync::mpsc::error::{ClosedError, SendError, SendTimeoutError, TrySendError};
use vstd::prelude::*;
use vstd::std_specs::convert::FromSpecImpl;

verus! {

/// `tokio::sync::mpsc::error::ClosedError`: the read end is gone, found
/// without an item at stake. It carries nothing.
#[verifier::external_type_specification]
#[verifier::external_body]
pub struct ExClosedError(ClosedError);

/// `tokio::sync::mpsc::error::SendError`, with its public field: the item
/// that a closed queue gives back.
#[verifier::external_type_specification]
#[verifier::reject_recursive_types(T)]
pub struct ExSendError<T>(SendError<T>);

/// `tokio::sync::mpsc::error::TrySendError`, with its variants `Full` and
/// `Closed`, each of which holds the item.
#[verifier::external_type_specification]
#[verifier::reject_recursive_types(T)]
pub struct ExTrySendError<T>(TrySendError<T>);

/// `tokio::sync::mpsc::error::SendTimeoutError`, with its variants `Timeout`
/// and `Closed`, each of which holds the item.
#[verifier::external_type_specification]
#[verifier::reject_recursive_types(T)]
pub struct ExSendTimeoutError<T>(SendTimeoutError<T>);

/// Why the queue did not take an item, and the item itself wherever the
/// queue gave it back.
#[derive(Debug, PartialEq, Eq)]
pub enum MpscSendError<T> {
    /// The read end is gone; no item was at stake.
    ClosedNoValue,
    /// The read end is gone; the item comes back.
    Closed(T),
    /// The queue is full; the item comes back.
    Full(T),
    /// The queue stayed full for the whole wait; the item comes back.
    Timeout(T),
}

impl<T> From<ClosedError> for MpscSendError<T> {
    fn from(_err: ClosedError) -> (r: Self) {
        MpscSendError::ClosedNoValue
    }
}

impl<T> FromSpecImpl<ClosedError> for MpscSendError<T> {
    open spec fn obeys_from_spec() -> bool {
        true
    }

    open spec fn from_spec(err: ClosedError) -> Self {
        MpscSendError::ClosedNoValue
    }
}

impl<T> From<SendError<T>> for MpscSendError<T> {
    fn from(err: SendError<T>) -> (r: Self) {
        MpscSendError::Closed(err.0)
    }
}

impl<T> FromSpecImpl<SendError<T>> for MpscSendError<T> {
    open spec fn obeys_from_spec() -> bool {
        true
    }

    open spec fn from_spec(err: SendError<T>) -> Self {
        MpscSendError::Closed(err.0)
    }
}

impl<T> From<SendTimeoutError<T>> for MpscSendError<T> {
    fn from(err: SendTimeoutError<T>) -> (r: Self) {
        match err {
            SendTimeoutError::Timeout(x) => MpscSendError::Timeout(x),
            SendTimeoutError::Closed(x) => MpscSendError::Closed(x),
        }
    }
}

impl<T> FromSpecImpl<SendTimeoutError<T>> for MpscSendError<T> {
    open spec fn obeys_from_spec() -> bool {
        true
    }

    open spec fn from_spec(err: SendTimeoutError<T>) -> Self {
        match err {
            SendTimeoutError::Timeout(x) => MpscSendError::Timeout(x),
            SendTimeoutError::Closed(x) => MpscSendError::Closed(x),
        }
    }
}

impl<T> From<TrySendError<T>> for MpscSendError<T> {
    fn from(err: TrySendError<T>) -> (r: Self) {
        match err {
            TrySendError::Full(x) => MpscSendError::Full(x),
            TrySendError::Closed(x) => MpscSendError::Closed(x),
        }
    }
}

impl<T> FromSpecImpl<TrySendError<T>> for MpscSendError<T> {
    open spec fn obeys_from_spec() -> bool {
        true
    }

    open spec fn from_spec(err: TrySendError<T>) -> Self {
        match err {
            TrySendError::Full(x) => MpscSendError::Full(x),
            TrySendError::Closed(x) => MpscSendError::Closed(x),
        }
    }
}

} // verus!
