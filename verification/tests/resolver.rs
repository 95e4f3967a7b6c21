//! Tests for target-set resolution from session membership data.

use dispute_sender::authority_set::AuthoritySet;
use dispute_sender::resolver::{get_relevant_validators, SessionInfo};
use dispute_sender::send_task::SendTask;
use dispute_sender::status::DisputeRequest;

#[test]
fn own_session_takes_validators_only() {
    // Discovery keys beyond the validator count are extended authorities of
    // the dispute's own session and are not targeted through it.
    let own = SessionInfo {
        discovery_keys: vec![11, 12, 13, 99],
        validator_count: 3,
        our_index: None,
    };
    let targets = get_relevant_validators(&own, &Vec::new());
    assert_eq!(targets.len(), 3);
    assert!(targets.contains(11));
    assert!(targets.contains(12));
    assert!(targets.contains(13));
    assert!(!targets.contains(99));
}

#[test]
fn own_index_is_excluded() {
    let own = SessionInfo {
        discovery_keys: vec![11, 12, 13],
        validator_count: 3,
        our_index: Some(1),
    };
    let actives = vec![SessionInfo {
        discovery_keys: vec![21, 22],
        validator_count: 1,
        our_index: Some(0),
    }];
    let targets = get_relevant_validators(&own, &actives);
    assert!(targets.contains(11));
    assert!(!targets.contains(12));
    assert!(targets.contains(13));
    assert!(!targets.contains(21));
    assert!(targets.contains(22));
    assert_eq!(targets.len(), 3);
}

#[test]
fn active_sessions_take_the_full_authority_set() {
    // For an active session every discovery identity counts, not only the
    // validators.
    let own = SessionInfo { discovery_keys: vec![], validator_count: 0, our_index: None };
    let actives = vec![SessionInfo {
        discovery_keys: vec![31, 32, 33],
        validator_count: 1,
        our_index: None,
    }];
    let targets = get_relevant_validators(&own, &actives);
    assert_eq!(targets.len(), 3);
    assert!(targets.contains(31));
    assert!(targets.contains(32));
    assert!(targets.contains(33));
}

#[test]
fn validator_count_beyond_list_length_is_capped() {
    let own = SessionInfo { discovery_keys: vec![41, 42], validator_count: 10, our_index: None };
    let targets = get_relevant_validators(&own, &Vec::new());
    assert_eq!(targets.len(), 2);
    assert!(targets.contains(41));
    assert!(targets.contains(42));
}

#[test]
fn overlapping_peer_is_counted_once_and_dispatched_once() {
    // The dispute's own session and one active session share peer 12: the
    // target set holds it once and dispatch issues exactly one request to it.
    let own = SessionInfo {
        discovery_keys: vec![11, 12],
        validator_count: 2,
        our_index: None,
    };
    let actives = vec![SessionInfo {
        discovery_keys: vec![12, 23],
        validator_count: 2,
        our_index: None,
    }];
    let targets = get_relevant_validators(&own, &actives);
    assert_eq!(targets.len(), 3);
    assert!(targets.contains(11));
    assert!(targets.contains(12));
    assert!(targets.contains(23));

    let task: SendTask<u32> = SendTask::new(DisputeRequest {
        candidate_hash: 1,
        session_index: 2,
        relay_parent: 3,
    });
    let receivers = task.new_receivers(&targets);
    assert_eq!(receivers.len(), 3);
    let twelves = receivers.iter().filter(|r| **r == 12).count();
    assert_eq!(twelves, 1);
}

#[test]
fn empty_membership_resolves_to_empty_target_set() {
    let own = SessionInfo { discovery_keys: vec![], validator_count: 0, our_index: None };
    let targets = get_relevant_validators(&own, &Vec::new());
    assert_eq!(targets.len(), 0);
}

#[test]
fn authority_set_deduplicates_inserts() {
    let mut s = AuthoritySet::new();
    s.insert(5);
    s.insert(5);
    s.insert(6);
    assert_eq!(s.len(), 2);
    assert!(s.contains(5));
    assert!(s.contains(6));
    assert!(!s.contains(7));
    assert_eq!(s.get(0), 5);
    assert_eq!(s.get(1), 6);
}
