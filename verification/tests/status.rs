//! Tests for the message vocabulary and the tracking map.

use dispute_sender::authority_set::AuthoritySet;
use dispute_sender::deliveries::Deliveries;
use dispute_sender::status::{
    completion_message, task_result_of, Delivery, DeliveryStatus, DisputeResponse,
    FromSendingTask, TaskResult,
};

#[test]
fn confirmed_response_maps_to_success() {
    assert_eq!(task_result_of(&Ok(DisputeResponse::Confirmed)), TaskResult::Succeeded);
}

#[test]
fn transport_error_maps_to_failure() {
    assert_eq!(task_result_of(&Err(())), TaskResult::Failed);
}

#[test]
fn completion_message_carries_candidate_peer_and_outcome() {
    let msg = completion_message(0xabc, 42, &Ok(DisputeResponse::Confirmed));
    assert_eq!(msg, FromSendingTask::Finished(0xabc, 42, TaskResult::Succeeded));
    let msg = completion_message(0xabc, 42, &Err(()));
    assert_eq!(msg, FromSendingTask::Finished(0xabc, 42, TaskResult::Failed));
}

#[test]
fn deliveries_tracks_insert_confirm_and_remove() {
    let mut d: Deliveries<u32> = Deliveries::new();
    assert!(!d.contains_key(1));
    assert_eq!(d.status_of(1), None);

    d.insert(1, DeliveryStatus::Pending(7));
    assert!(d.contains_key(1));
    assert_eq!(d.status_of(1), Some(Delivery::Pending));

    d.confirm(1);
    assert_eq!(d.status_of(1), Some(Delivery::Succeeded));

    d.remove(1);
    assert!(!d.contains_key(1));
    assert_eq!(d.status_of(1), None);

    // Removing an untracked peer is harmless.
    d.remove(1);
    assert!(!d.contains_key(1));
}

#[test]
fn deliveries_retain_keeps_only_relevant_peers() {
    let mut d: Deliveries<u32> = Deliveries::new();
    d.insert(1, DeliveryStatus::Pending(10));
    d.insert(2, DeliveryStatus::Succeeded);
    d.insert(3, DeliveryStatus::Pending(30));

    let mut target = AuthoritySet::new();
    target.insert(2);
    target.insert(3);
    d.retain(&target);

    assert_eq!(d.status_of(1), None);
    assert_eq!(d.status_of(2), Some(Delivery::Succeeded));
    assert_eq!(d.status_of(3), Some(Delivery::Pending));
}
