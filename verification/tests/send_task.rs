//! Scenarios for the send task state machine: dispatch, completion handling,
//! retry after failure, pruning, and the failed-sends flag.

use dispute_sender::authority_set::AuthoritySet;
use dispute_sender::send_task::{build_requests, SendTask};
use dispute_sender::status::{Delivery, DisputeRequest, TaskResult};

fn request() -> DisputeRequest {
    DisputeRequest { candidate_hash: 0xc0de, session_index: 3, relay_parent: 0xbeef }
}

fn set_of(ids: &[u64]) -> AuthoritySet {
    let mut s = AuthoritySet::new();
    for id in ids {
        s.insert(*id);
    }
    s
}

fn dispatch(task: &mut SendTask<u32>, target: &AuthoritySet) -> Vec<u64> {
    let receivers = task.new_receivers(target);
    let mut handles: Vec<(u64, u32)> = Vec::new();
    let mut next: u32 = 1;
    for r in &receivers {
        handles.push((*r, next));
        next += 1;
    }
    task.refresh_sends(target, handles);
    receivers
}

#[test]
fn fresh_task_tracks_nothing() {
    let task: SendTask<u32> = SendTask::new(request());
    assert!(!task.has_failed_sends());
    assert_eq!(task.delivery_status(1), None);
    assert_eq!(*task.request(), request());
}

#[test]
fn refresh_dispatches_to_every_new_peer() {
    let mut task: SendTask<u32> = SendTask::new(request());
    let target = set_of(&[10, 20]);
    let receivers = dispatch(&mut task, &target);
    assert_eq!(receivers.len(), 2);
    assert!(receivers.contains(&10));
    assert!(receivers.contains(&20));
    assert_eq!(task.delivery_status(10), Some(Delivery::Pending));
    assert_eq!(task.delivery_status(20), Some(Delivery::Pending));
    assert!(!task.has_failed_sends());
}

#[test]
fn success_then_failure_and_retry() {
    // Target set {A, B}; dispatch both; A reports success, B reports failure.
    let a: u64 = 1;
    let b: u64 = 2;
    let mut task: SendTask<u32> = SendTask::new(request());
    let target = set_of(&[a, b]);
    dispatch(&mut task, &target);

    task.on_finished_send(a, TaskResult::Succeeded);
    task.on_finished_send(b, TaskResult::Failed);
    assert_eq!(task.delivery_status(a), Some(Delivery::Succeeded));
    assert_eq!(task.delivery_status(b), None);
    assert!(task.has_failed_sends());

    // The next refresh with the same target dispatches a fresh attempt for B
    // only, leaving A untouched, and resets the flag.
    let receivers = dispatch(&mut task, &target);
    assert_eq!(receivers, vec![b]);
    assert_eq!(task.delivery_status(a), Some(Delivery::Succeeded));
    assert_eq!(task.delivery_status(b), Some(Delivery::Pending));
    assert!(!task.has_failed_sends());
}

#[test]
fn shrinking_target_prunes_and_late_completion_is_ignored() {
    // Target set shrinks from {A, B} to {A} while B's attempt is pending.
    let a: u64 = 1;
    let b: u64 = 2;
    let mut task: SendTask<u32> = SendTask::new(request());
    dispatch(&mut task, &set_of(&[a, b]));
    assert_eq!(task.delivery_status(b), Some(Delivery::Pending));

    let receivers = dispatch(&mut task, &set_of(&[a]));
    assert!(receivers.is_empty());
    assert_eq!(task.delivery_status(a), Some(Delivery::Pending));
    assert_eq!(task.delivery_status(b), None);

    // A late completion for B is discarded without error or flag.
    task.on_finished_send(b, TaskResult::Succeeded);
    assert_eq!(task.delivery_status(b), None);
    assert_eq!(task.delivery_status(a), Some(Delivery::Pending));
    assert!(!task.has_failed_sends());
}

#[test]
fn success_for_untracked_peer_is_a_no_op() {
    let mut task: SendTask<u32> = SendTask::new(request());
    dispatch(&mut task, &set_of(&[5]));
    task.on_finished_send(77, TaskResult::Succeeded);
    assert_eq!(task.delivery_status(5), Some(Delivery::Pending));
    assert_eq!(task.delivery_status(77), None);
    assert!(!task.has_failed_sends());
}

#[test]
fn failure_removes_peer_regardless_of_prior_state() {
    let mut task: SendTask<u32> = SendTask::new(request());
    dispatch(&mut task, &set_of(&[5, 6]));
    task.on_finished_send(5, TaskResult::Succeeded);

    // Failure for a succeeded peer, a pending peer and an unknown peer all
    // leave the peer absent.
    task.on_finished_send(5, TaskResult::Failed);
    assert_eq!(task.delivery_status(5), None);
    task.on_finished_send(6, TaskResult::Failed);
    assert_eq!(task.delivery_status(6), None);
    task.on_finished_send(99, TaskResult::Failed);
    assert_eq!(task.delivery_status(99), None);
    assert!(task.has_failed_sends());
}

#[test]
fn flag_reflects_only_failures_since_last_refresh() {
    let mut task: SendTask<u32> = SendTask::new(request());
    let target = set_of(&[1, 2]);
    dispatch(&mut task, &target);
    assert!(!task.has_failed_sends());

    task.on_finished_send(1, TaskResult::Succeeded);
    assert!(!task.has_failed_sends());

    task.on_finished_send(2, TaskResult::Failed);
    assert!(task.has_failed_sends());

    dispatch(&mut task, &target);
    assert!(!task.has_failed_sends());
}

#[test]
fn succeeded_completion_overwrites_pending() {
    let mut task: SendTask<u32> = SendTask::new(request());
    dispatch(&mut task, &set_of(&[4]));
    assert_eq!(task.delivery_status(4), Some(Delivery::Pending));
    task.on_finished_send(4, TaskResult::Succeeded);
    assert_eq!(task.delivery_status(4), Some(Delivery::Succeeded));
}

#[test]
fn new_receivers_skips_tracked_peers() {
    let mut task: SendTask<u32> = SendTask::new(request());
    dispatch(&mut task, &set_of(&[1, 2]));
    let receivers = task.new_receivers(&set_of(&[1, 2, 3]));
    assert_eq!(receivers, vec![3]);
}

#[test]
fn refresh_ignores_handles_for_irrelevant_peers() {
    // A handle for a peer outside the target set gains no entry.
    let mut task: SendTask<u32> = SendTask::new(request());
    let target = set_of(&[1]);
    task.refresh_sends(&target, vec![(1, 1), (9, 2)]);
    assert_eq!(task.delivery_status(1), Some(Delivery::Pending));
    assert_eq!(task.delivery_status(9), None);
}

#[test]
fn refresh_never_redispatches_to_a_tracked_peer() {
    // A second refresh with the same target has nothing to dispatch, and a
    // stray handle for an already-tracked peer gains no second entry.
    let mut task: SendTask<u32> = SendTask::new(request());
    let target = set_of(&[1]);
    dispatch(&mut task, &target);
    assert!(task.new_receivers(&target).is_empty());
    task.refresh_sends(&target, vec![(1, 99)]);
    assert_eq!(task.delivery_status(1), Some(Delivery::Pending));
    task.on_finished_send(1, TaskResult::Succeeded);
    task.refresh_sends(&target, vec![(1, 100)]);
    assert_eq!(task.delivery_status(1), Some(Delivery::Succeeded));
}

#[test]
fn build_requests_pairs_each_receiver_with_the_payload() {
    let req = request();
    let receivers: Vec<u64> = vec![7, 8, 9];
    let batch = build_requests(&receivers, &req);
    assert_eq!(batch.len(), 3);
    for (i, out) in batch.iter().enumerate() {
        assert_eq!(out.receiver, receivers[i]);
        assert_eq!(out.request, req);
    }
}
