//! Plain-value vocabulary of the sender: peer and candidate identities, the
//! request payload, per-peer delivery status and completion messages.

use vstd::prelude::*;

verus! {

/// Identity of a candidate under dispute, as the driver names it.
pub type CandidateHash = u64;

/// Discovery identity of an authority (a target peer), as the driver names it.
pub type AuthorityDiscoveryId = u64;

/// The dispute request payload, reduced to what the sender reads of it: the
/// candidate it concerns, the session the dispute arose in, and the chain
/// position its membership lookups are anchored at.
#[derive(Clone, Copy, PartialEq, Eq, Structural, Debug)]
pub struct DisputeRequest {
    /// Hash of the disputed candidate.
    pub candidate_hash: CandidateHash,
    /// Session in which the dispute occurred.
    pub session_index: u64,
    /// Reference point for looking up that session's membership.
    pub relay_parent: u64,
}

/// Outcome of one response-wait task.
#[derive(Clone, Copy, PartialEq, Eq, Structural, Debug)]
pub enum TaskResult {
    /// The request reached its peer and was confirmed.
    Succeeded,
    /// The request could not be delivered; the peer is retried on the next
    /// refresh.
    Failed,
}

/// A peer's reply to a dispute request: the protocol has a single positive
/// acknowledgment.
#[derive(Clone, Copy, PartialEq, Eq, Structural, Debug)]
pub enum DisputeResponse {
    /// The peer confirmed receipt of the statements.
    Confirmed,
}

/// Message sent by a response-wait task back to the owning send task.
#[derive(Clone, Copy, PartialEq, Eq, Structural, Debug)]
pub enum FromSendingTask {
    /// Delivery of statements for the given candidate finished for this
    /// authority, with the given outcome.
    Finished(CandidateHash, AuthorityDiscoveryId, TaskResult),
}

/// Delivery status of one tracked peer.  `H` is the driver's handle to the
/// spawned response-wait task; dropping a `Pending` entry drops the handle,
/// which is how a no-longer-relevant attempt gets cancelled.
pub enum DeliveryStatus<H> {
    /// A send attempt is in flight; the handle owns its response-wait task.
    Pending(H),
    /// A confirmed response was received; terminal for this peer.
    Succeeded,
}

/// Delivery status as the contracts see it: the handle itself carries no
/// meaning for the sender's decisions.
#[derive(Clone, Copy, PartialEq, Eq, Structural, Debug)]
pub enum Delivery {
    /// A send attempt is in flight.
    Pending,
    /// A confirmed response was received.
    Succeeded,
}

impl<H> View for DeliveryStatus<H> {
    type V = Delivery;

    open spec fn view(&self) -> Delivery {
        match self {
            DeliveryStatus::Pending(_) => Delivery::Pending,
            DeliveryStatus::Succeeded => Delivery::Succeeded,
        }
    }
}

/// What one finished response means for the tracking map: an error is a
/// failed delivery, the confirmation a successful one.
pub fn task_result_of(response: &Result<DisputeResponse, ()>) -> (r: TaskResult)
    ensures
        r == (match response {
            Ok(DisputeResponse::Confirmed) => TaskResult::Succeeded,
            Err(_) => TaskResult::Failed,
        }),
{
    match response {
        Ok(DisputeResponse::Confirmed) => TaskResult::Succeeded,
        Err(_) => TaskResult::Failed,
    }
}

/// The completion message a response-wait task reports for `candidate_hash`
/// and `receiver` once its response resolved.
pub fn completion_message(
    candidate_hash: CandidateHash,
    receiver: AuthorityDiscoveryId,
    response: &Result<DisputeResponse, ()>,
) -> (msg: FromSendingTask)
    ensures
        msg == FromSendingTask::Finished(candidate_hash, receiver, match response {
            Ok(DisputeResponse::Confirmed) => TaskResult::Succeeded,
            Err(_) => TaskResult::Failed,
        }),
{
    FromSendingTask::Finished(candidate_hash, receiver, task_result_of(response))
}

} // verus!
