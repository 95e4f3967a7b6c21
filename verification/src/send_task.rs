//! Delivery tracking for one dispute: the send task state machine.
//!
//! A [`SendTask`] owns the per-dispute tracking map and the failed-sends
//! flag.  The driver resolves the target set, hands freshly spawned task
//! handles to [`SendTask::refresh_sends`], and feeds every completion message
//! into [`SendTask::on_finished_send`].

use vstd::prelude::*;
use crate::authority_set::AuthoritySet;
use crate::deliveries::Deliveries;
use crate::status::{AuthorityDiscoveryId, Delivery, DeliveryStatus, DisputeRequest, TaskResult};

verus! {

/// The peers that a batch of `(peer, handle)` pairs covers.
pub open spec fn handle_keys<H>(pairs: Seq<(AuthorityDiscoveryId, H)>) -> Set<AuthorityDiscoveryId> {
    Set::new(|k: AuthorityDiscoveryId|
        exists|i: int| 0 <= i < pairs.len() && (#[trigger] pairs[i]).0 == k)
}

proof fn lemma_handle_keys_skip<H>(pairs: Seq<(AuthorityDiscoveryId, H)>, n: int)
    requires
        0 <= n < pairs.len(),
    ensures
        handle_keys(pairs.skip(n)) == handle_keys(pairs.skip(n + 1)).insert(pairs[n].0),
{
    let a = pairs.skip(n);
    let b = pairs.skip(n + 1);
    assert forall|k: AuthorityDiscoveryId| #[trigger] handle_keys(a).contains(k)
        implies handle_keys(b).insert(pairs[n].0).contains(k) by {
        let i = choose|i: int| 0 <= i < a.len() && (#[trigger] a[i]).0 == k;
        assert(a[i] == pairs[n + i]);
        if i == 0 {
            assert(k == pairs[n].0);
        } else {
            assert(b[i - 1] == pairs[n + i]);
            assert(handle_keys(b).contains(k));
        }
    }
    assert forall|k: AuthorityDiscoveryId| handle_keys(b).insert(pairs[n].0).contains(k)
        implies handle_keys(a).contains(k) by {
        if k == pairs[n].0 {
            assert(a[0] == pairs[n]);
            assert(handle_keys(a).contains(k));
        } else {
            let i = choose|i: int| 0 <= i < b.len() && (#[trigger] b[i]).0 == k;
            assert(b[i] == pairs[n + 1 + i]);
            assert(a[i + 1] == pairs[n + 1 + i]);
            assert(handle_keys(a).contains(k));
        }
    }
    assert(handle_keys(a) =~= handle_keys(b).insert(pairs[n].0));
}

/// One outgoing request of a dispatch batch, addressed to one peer.
#[derive(Clone, Copy, PartialEq, Eq, Structural, Debug)]
pub struct OutgoingDisputeRequest {
    /// The peer the request is addressed to.
    pub receiver: AuthorityDiscoveryId,
    /// The request payload.
    pub request: DisputeRequest,
}

/// The batch a refresh submits to the transport layer in one call: one
/// request per newly relevant peer, each carrying the same payload.  The
/// driver submits it with a policy of reconnecting to disconnected peers
/// rather than dropping them silently.
pub fn build_requests(
    receivers: &Vec<AuthorityDiscoveryId>,
    request: &DisputeRequest,
) -> (batch: Vec<OutgoingDisputeRequest>)
    ensures
        batch.view().len() == receivers.view().len(),
        forall|i: int| 0 <= i < batch.view().len()
            ==> #[trigger] batch.view()[i] == (OutgoingDisputeRequest {
                receiver: receivers.view()[i],
                request: *request,
            }),
{
    let mut batch: Vec<OutgoingDisputeRequest> = Vec::new();
    let mut i: usize = 0;
    while i < receivers.len()
        invariant
            i <= receivers.view().len(),
            batch.view().len() == i,
            forall|j: int| 0 <= j < i
                ==> #[trigger] batch.view()[j] == (OutgoingDisputeRequest {
                    receiver: receivers.view()[j],
                    request: *request,
                }),
        decreases receivers.view().len() - i,
    {
        batch.push(OutgoingDisputeRequest { receiver: receivers[i], request: *request });
        i += 1;
    }
    batch
}

/// Delivery tracking for a dispute request: which peers have an attempt in
/// flight, which have confirmed receipt, and whether anything failed since
/// the last refresh.  `H` is the driver's handle to a spawned response-wait
/// task; dropping it cancels the attempt.
pub struct SendTask<H> {
    /// The request to get out to every relevant peer.
    request: DisputeRequest,
    /// Status of every tracked peer.
    deliveries: Deliveries<H>,
    /// Whether any send failed since the last refresh.
    has_failed_sends: bool,
}

impl<H> View for SendTask<H> {
    type V = Map<AuthorityDiscoveryId, Delivery>;

    closed spec fn view(&self) -> Map<AuthorityDiscoveryId, Delivery> {
        self.deliveries.view()
    }
}

impl<H> SendTask<H> {
    /// Well-formed: the tracking store has one entry per peer.
    pub closed spec fn wf(self) -> bool {
        self.deliveries.wf()
    }

    /// The failed-sends flag.
    pub closed spec fn failed_flag(self) -> bool {
        self.has_failed_sends
    }

    /// The dispute request to get out to every relevant peer.
    pub closed spec fn spec_request(self) -> DisputeRequest {
        self.request
    }

    /// A fresh send task: nothing tracked, nothing failed.  The driver must
    /// follow construction with one refresh, which dispatches the first wave
    /// of sends.
    pub fn new(request: DisputeRequest) -> (t: Self)
        ensures
            t.wf(),
            t@ == Map::<AuthorityDiscoveryId, Delivery>::empty(),
            !t.failed_flag(),
            t.spec_request() == request,
    {
        SendTask { request, deliveries: Deliveries::new(), has_failed_sends: false }
    }

    /// The dispute request to be sent; the driver reads the session index
    /// and reference point off it to anchor its membership lookups.
    pub fn request(&self) -> (r: &DisputeRequest)
        ensures
            *r == self.spec_request(),
    {
        &self.request
    }

    /// The peers of `target` that have no tracking entry yet: exactly the
    /// peers a refresh has to dispatch a send for.  Each appears once.
    pub fn new_receivers(&self, target: &AuthoritySet) -> (r: Vec<AuthorityDiscoveryId>)
        requires
            self.wf(),
            target.wf(),
        ensures
            forall|k: AuthorityDiscoveryId| #[trigger] r.view().contains(k)
                <==> target@.contains(k) && !self@.dom().contains(k),
            forall|i: int, j: int| 0 <= i < j < r.view().len()
                ==> #[trigger] r.view()[i] != #[trigger] r.view()[j],
    {
        let mut out: Vec<AuthorityDiscoveryId> = Vec::new();
        let n = target.len();
        let mut i: usize = 0;
        while i < n
            invariant
                self.wf(),
                target.wf(),
                n == target.ids_seq().len(),
                i <= n,
                forall|k: AuthorityDiscoveryId| #[trigger] out.view().contains(k)
                    ==> target.ids_seq().take(i as int).contains(k) && !self@.dom().contains(k),
                forall|j: int| 0 <= j < i && !self@.dom().contains(#[trigger] target.ids_seq()[j])
                    ==> out.view().contains(target.ids_seq()[j]),
                forall|a: int, b: int| 0 <= a < b < out.view().len()
                    ==> #[trigger] out.view()[a] != #[trigger] out.view()[b],
            decreases n - i,
        {
            let k = target.get(i);
            if !self.deliveries.contains_key(k) {
                let ghost o0 = out.view();
                proof {
                    if o0.contains(k) {
                        let j = choose|j: int| 0 <= j < o0.len() && o0[j] == k;
                        assert(target.ids_seq().take(i as int).contains(k));
                        let p = choose|p: int|
                            0 <= p < i && #[trigger] target.ids_seq().take(i as int)[p] == k;
                        assert(target.ids_seq()[p] == k);
                        target.lemma_ids_unique(p, i as int);
                        assert(false);
                    }
                }
                out.push(k);
                proof {
                    assert forall|x: AuthorityDiscoveryId| #[trigger] o0.contains(x)
                        implies out.view().contains(x) by {
                        let j = choose|j: int| 0 <= j < o0.len() && o0[j] == x;
                        assert(out.view()[j] == x);
                    }
                    assert(out.view().contains(k)) by {
                        assert(out.view()[o0.len() as int] == k);
                    }
                    assert forall|x: AuthorityDiscoveryId| #[trigger] out.view().contains(x)
                        implies target.ids_seq().take(i as int + 1).contains(x)
                            && !self@.dom().contains(x) by {
                        let j = choose|j: int| 0 <= j < out.view().len() && out.view()[j] == x;
                        if j < o0.len() {
                            assert(o0[j] == x);
                            assert(o0.contains(x));
                            let p = choose|p: int|
                                0 <= p < i && #[trigger] target.ids_seq().take(i as int)[p] == x;
                            assert(target.ids_seq().take(i as int + 1)[p] == x);
                        } else {
                            assert(x == k);
                            assert(target.ids_seq().take(i as int + 1)[i as int] == k);
                        }
                    }
                    assert forall|a: int, b: int| 0 <= a < b < out.view().len()
                        implies #[trigger] out.view()[a] != #[trigger] out.view()[b] by {
                        if b + 1 < out.view().len() {
                            assert(out.view()[a] == o0[a] && out.view()[b] == o0[b]);
                        } else {
                            assert(out.view()[b] == k && out.view()[a] == o0[a]);
                            if o0[a] == k {
                                assert(o0.contains(k));
                            }
                        }
                    }
                }
            } else {
                proof {
                    assert forall|x: AuthorityDiscoveryId| #[trigger] out.view().contains(x)
                        implies target.ids_seq().take(i as int + 1).contains(x)
                            && !self@.dom().contains(x) by {
                        let p = choose|p: int|
                            0 <= p < i && #[trigger] target.ids_seq().take(i as int)[p] == x;
                        assert(target.ids_seq().take(i as int + 1)[p] == x);
                    }
                }
            }
            i += 1;
        }
        proof {
            assert forall|k: AuthorityDiscoveryId| #[trigger] out.view().contains(k)
                implies target@.contains(k) && !self@.dom().contains(k) by {
                assert(target.ids_seq().take(n as int).contains(k));
                let p = choose|p: int|
                    0 <= p < n && #[trigger] target.ids_seq().take(n as int)[p] == k;
                assert(target.ids_seq()[p] == k);
                assert(target.ids_seq().contains(k));
                target.lemma_view_contains(k);
            }
            assert forall|k: AuthorityDiscoveryId|
                target@.contains(k) && !self@.dom().contains(k)
                implies out.view().contains(k) by {
                target.lemma_view_contains(k);
                let p = choose|p: int|
                    0 <= p < target.ids_seq().len() && #[trigger] target.ids_seq()[p] == k;
            }
        }
        out
    }

    /// One refresh step, after the driver resolved `target` and spawned a
    /// response-wait task for each newly relevant peer: prune every tracked
    /// peer outside `target` (cancelling its attempt), keep every
    /// still-relevant entry untouched, admit a `Pending` entry for each
    /// handle whose peer is in `target` and untracked, and clear the
    /// failed-sends flag.
    ///
    /// A peer already tracked is never dispatched to again, so a relevant
    /// peer has exactly one in-flight or completed attempt at any time.  If
    /// the handles cover every newly relevant peer — which they do when the
    /// driver spawned one for each peer of [`Self::new_receivers`] — the
    /// tracked peers afterwards are exactly the members of `target`.
    pub fn refresh_sends(&mut self, target: &AuthoritySet, new_handles: Vec<(AuthorityDiscoveryId, H)>)
        requires
            old(self).wf(),
            target.wf(),
        ensures
            final(self).wf(),
            final(self).spec_request() == old(self).spec_request(),
            !final(self).failed_flag(),
            forall|k: AuthorityDiscoveryId| #[trigger] final(self)@.dom().contains(k)
                <==> target@.contains(k)
                    && (old(self)@.dom().contains(k) || handle_keys(new_handles.view()).contains(k)),
            forall|k: AuthorityDiscoveryId|
                old(self)@.dom().contains(k) && target@.contains(k)
                    ==> #[trigger] final(self)@[k] == old(self)@[k],
            forall|k: AuthorityDiscoveryId|
                #[trigger] final(self)@.dom().contains(k) && !old(self)@.dom().contains(k)
                    ==> final(self)@[k] == Delivery::Pending,
            (forall|k: AuthorityDiscoveryId|
                target@.contains(k) && !old(self)@.dom().contains(k)
                    ==> #[trigger] handle_keys(new_handles.view()).contains(k))
                ==> final(self)@.dom() == target@,
    {
        let ghost all = new_handles.view();
        self.deliveries.retain(target);
        let ghost pruned = self.deliveries@;
        let mut rest = new_handles;
        proof {
            assert(rest.view() =~= all.take(rest.view().len() as int));
            assert(all.skip(rest.view().len() as int).len() == 0);
        }
        while rest.len() > 0
            invariant
                self.deliveries.wf(),
                target.wf(),
                self.request == old(self).request,
                rest.view().len() <= all.len(),
                rest.view() == all.take(rest.view().len() as int),
                forall|x: AuthorityDiscoveryId| #[trigger] self.deliveries@.dom().contains(x)
                    <==> pruned.dom().contains(x)
                        || (target@.contains(x)
                            && handle_keys(all.skip(rest.view().len() as int)).contains(x)),
                forall|x: AuthorityDiscoveryId| pruned.dom().contains(x)
                    ==> #[trigger] self.deliveries@[x] == pruned[x],
                forall|x: AuthorityDiscoveryId|
                    #[trigger] self.deliveries@.dom().contains(x) && !pruned.dom().contains(x)
                        ==> self.deliveries@[x] == Delivery::Pending,
            decreases rest.view().len(),
        {
            let ghost n = rest.view().len() as int;
            let ghost m0 = self.deliveries@;
            let pair = rest.pop().unwrap();
            let (k, h) = pair;
            proof {
                assert(rest.view() =~= all.take(n - 1));
                assert(all.take(n)[n - 1] == all[n - 1]);
                assert(k == all[n - 1].0);
                lemma_handle_keys_skip(all, n - 1);
            }
            if target.contains(k) {
                let tracked_already = self.deliveries.contains_key(k);
                if !tracked_already {
                    self.deliveries.insert(k, DeliveryStatus::Pending(h));
                }
            }
            proof {
                assert forall|x: AuthorityDiscoveryId| #[trigger] self.deliveries@.dom().contains(x)
                    <==> pruned.dom().contains(x)
                        || (target@.contains(x)
                            && handle_keys(all.skip(n - 1)).contains(x)) by {
                    if x == k {
                        assert(handle_keys(all.skip(n - 1)).contains(k));
                    } else {
                        assert(handle_keys(all.skip(n - 1)).contains(x)
                            == handle_keys(all.skip(n)).contains(x));
                        assert(self.deliveries@.dom().contains(x) == m0.dom().contains(x));
                    }
                }
            }
        }
        self.has_failed_sends = false;
        proof {
            assert(all.skip(0) =~= all);
            assert forall|k: AuthorityDiscoveryId| #[trigger] self.deliveries@.dom().contains(k)
                <==> target@.contains(k)
                    && (old(self)@.dom().contains(k) || handle_keys(all).contains(k)) by {
                assert(pruned.dom().contains(k)
                    == (old(self)@.dom().contains(k) && target@.contains(k)));
            }
            if forall|k: AuthorityDiscoveryId|
                target@.contains(k) && !old(self)@.dom().contains(k)
                    ==> #[trigger] handle_keys(all).contains(k) {
                assert forall|k: AuthorityDiscoveryId| target@.contains(k)
                    implies self.deliveries@.dom().contains(k) by {
                    if !old(self)@.dom().contains(k) {
                        assert(handle_keys(all).contains(k));
                    }
                }
                assert(self.deliveries@.dom() =~= target@);
            }
        }
    }

    /// Whether any send failed since the last refresh.
    pub fn has_failed_sends(&self) -> (r: bool)
        ensures
            r == self.failed_flag(),
    {
        self.has_failed_sends
    }

    /// Consume one completion message for `authority`.
    ///
    /// A failure drops the peer's entry — the peer is untracked immediately
    /// afterwards, so the next refresh dispatches a fresh attempt — and
    /// raises the failed-sends flag.  A success marks a tracked peer
    /// `Succeeded`, terminal for this dispute; a success for an untracked
    /// peer (its entry was pruned or already dropped while the response was
    /// in the queue) changes nothing, and in particular raises no flag.
    pub fn on_finished_send(&mut self, authority: AuthorityDiscoveryId, result: TaskResult)
        requires
            old(self).wf(),
        ensures
            final(self).wf(),
            final(self).spec_request() == old(self).spec_request(),
            result == TaskResult::Failed ==> {
                &&& final(self)@ == old(self)@.remove(authority)
                &&& !final(self)@.dom().contains(authority)
                &&& final(self).failed_flag()
            },
            result == TaskResult::Succeeded && old(self)@.dom().contains(authority) ==> {
                &&& final(self)@ == old(self)@.insert(authority, Delivery::Succeeded)
                &&& final(self).failed_flag() == old(self).failed_flag()
            },
            result == TaskResult::Succeeded && !old(self)@.dom().contains(authority) ==> {
                &&& final(self)@ == old(self)@
                &&& final(self).failed_flag() == old(self).failed_flag()
            },
    {
        match result {
            TaskResult::Failed => {
                self.has_failed_sends = true;
                self.deliveries.remove(authority);
            }
            TaskResult::Succeeded => {
                if self.deliveries.contains_key(authority) {
                    self.deliveries.confirm(authority);
                }
            }
        }
    }

    /// The tracked status of `authority`: `None` for an untracked peer.
    pub fn delivery_status(&self, authority: AuthorityDiscoveryId) -> (r: Option<Delivery>)
        requires
            self.wf(),
        ensures
            r == if self@.dom().contains(authority) {
                Some(self@[authority])
            } else {
                None::<Delivery>
            },
    {
        self.deliveries.status_of(authority)
    }
}

} // verus!
