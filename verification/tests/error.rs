use prime_stream::bridge::{probed, sent, settle, Verdict};
use prime_stream::error::MpscSendError;
use tokio::sync::mpsc;
use tokio::sync::mpsc::error::{ClosedError, SendError, SendTimeoutError, TrySendError};

fn closed_error() -> ClosedError {
    let (mut tx, rx) = mpsc::channel::<u8>(1);
    drop(rx);
    let mut rt = tokio::runtime::Builder::new().basic_scheduler().build().unwrap();
    rt.block_on(tokio::future::poll_fn(|cx| tx.poll_ready(cx))).unwrap_err()
}

#[test]
fn closed_without_payload_maps_to_closed_no_value() {
    let outcome: MpscSendError<u8> = MpscSendError::from(closed_error());
    assert_eq!(outcome, MpscSendError::ClosedNoValue);
}

#[test]
fn send_error_gives_the_item_back_as_closed() {
    assert_eq!(MpscSendError::from(SendError(41)), MpscSendError::Closed(41));
    assert_eq!(
        MpscSendError::from(SendError(String::from("lost"))),
        MpscSendError::Closed(String::from("lost"))
    );
}

#[test]
fn try_send_error_keeps_cause_and_item() {
    assert_eq!(MpscSendError::from(TrySendError::Full(7)), MpscSendError::Full(7));
    assert_eq!(MpscSendError::from(TrySendError::Closed(8)), MpscSendError::Closed(8));
}

#[test]
fn send_timeout_error_keeps_cause_and_item() {
    assert_eq!(MpscSendError::from(SendTimeoutError::Timeout(3)), MpscSendError::Timeout(3));
    assert_eq!(MpscSendError::from(SendTimeoutError::Closed(4)), MpscSendError::Closed(4));
}

#[test]
fn a_full_queue_rejects_with_the_item() {
    let (mut tx, _rx) = mpsc::channel::<u32>(1);
    assert!(tx.try_send(1).is_ok());
    let rejected = tx.try_send(2).unwrap_err();
    assert_eq!(MpscSendError::from(rejected), MpscSendError::Full(2));
}

#[test]
fn a_dropped_read_end_rejects_with_the_item() {
    let (mut tx, rx) = mpsc::channel::<u32>(1);
    drop(rx);
    let rejected = tx.try_send(5).unwrap_err();
    assert_eq!(MpscSendError::from(rejected), MpscSendError::Closed(5));
}

#[test]
fn sent_reads_the_answer_of_the_queue() {
    assert_eq!(sent::<u8>(Ok(())), Ok(()));
    assert_eq!(sent(Err(SendError(9))), Err(MpscSendError::Closed(9)));
}

#[test]
fn probed_fails_only_on_a_read_end_that_is_gone() {
    assert_eq!(probed::<u8>(None), Ok(()));
    assert_eq!(probed::<u8>(Some(Ok(()))), Ok(()));
    assert_eq!(probed::<u8>(Some(Err(closed_error()))), Err(MpscSendError::ClosedNoValue));
}

#[test]
fn every_rejection_halts_the_worker() {
    assert_eq!(settle::<u8>(Ok(())), Verdict::Continue);
    assert_eq!(
        settle::<u8>(Err(MpscSendError::ClosedNoValue)),
        Verdict::Halt(MpscSendError::ClosedNoValue)
    );
    assert_eq!(settle(Err(MpscSendError::Closed(1))), Verdict::Halt(MpscSendError::Closed(1)));
    assert_eq!(settle(Err(MpscSendError::Full(2))), Verdict::Halt(MpscSendError::Full(2)));
    assert_eq!(settle(Err(MpscSendError::Timeout(3))), Verdict::Halt(MpscSendError::Timeout(3)));
}
