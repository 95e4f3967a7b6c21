//! Resolving the target peer set from session membership data.
//!
//! The driver looks session membership up for the dispute's own session and
//! for every currently active session; the functions here turn those
//! memberships into the set of peers the dispute request must reach: the
//! validators of the dispute's session plus the full authority set of every
//! active session, the caller's own identity excluded, each peer once.

use vstd::prelude::*;
use crate::authority_set::AuthoritySet;
use crate::status::AuthorityDiscoveryId;

verus! {

/// Membership of one session, as the lookup service reports it: the ordered
/// discovery identities of the session's authorities, how many of them are
/// parachain validators, and our own position in the list if we are in it.
pub struct SessionInfo {
    /// Discovery identities of the session's authorities; the parachain
    /// validators come first.
    pub discovery_keys: Vec<AuthorityDiscoveryId>,
    /// How many of the discovery identities are parachain validators.
    pub validator_count: usize,
    /// Our own position among the discovery identities, if present.
    pub our_index: Option<usize>,
}

/// Whether position `i` of the session's discovery list is our own identity.
pub open spec fn is_our_index(info: SessionInfo, i: int) -> bool {
    match info.our_index {
        Some(j) => i == j as int,
        None => false,
    }
}

/// How far the validators-only prefix of the discovery list reaches.
pub open spec fn validator_cap(info: SessionInfo) -> int {
    if info.validator_count as int <= info.discovery_keys.view().len() {
        info.validator_count as int
    } else {
        info.discovery_keys.view().len() as int
    }
}

/// The discovery identities among the first `cap` entries of the session's
/// list, our own excluded.
pub open spec fn session_targets(info: SessionInfo, cap: int) -> Set<AuthorityDiscoveryId> {
    Set::new(|x: AuthorityDiscoveryId|
        exists|i: int|
            0 <= i < cap && i < info.discovery_keys.view().len() && !is_our_index(info, i)
                && info.discovery_keys.view()[i] == x)
}

/// The parachain validators of a session, our own identity excluded.
pub open spec fn validator_targets(info: SessionInfo) -> Set<AuthorityDiscoveryId> {
    session_targets(info, validator_cap(info))
}

/// The full authority set of a session, our own identity excluded.
pub open spec fn authority_targets(info: SessionInfo) -> Set<AuthorityDiscoveryId> {
    session_targets(info, info.discovery_keys.view().len() as int)
}

/// The authorities of all the given sessions together.
pub open spec fn all_authority_targets(infos: Seq<SessionInfo>) -> Set<AuthorityDiscoveryId>
    decreases infos.len(),
{
    if infos.len() == 0 {
        Set::<AuthorityDiscoveryId>::empty()
    } else {
        all_authority_targets(infos.drop_last()).union(authority_targets(infos.last()))
    }
}

/// Every peer the dispute request must reach: the validators of the dispute's
/// own session and the authorities of every active session, ourselves
/// excluded.
pub open spec fn relevant_validators(own: SessionInfo, actives: Seq<SessionInfo>) -> Set<AuthorityDiscoveryId> {
    validator_targets(own).union(all_authority_targets(actives))
}

proof fn lemma_session_targets_step(info: SessionInfo, i: int)
    requires
        0 <= i < info.discovery_keys.view().len(),
    ensures
        session_targets(info, i + 1) == if is_our_index(info, i) {
            session_targets(info, i)
        } else {
            session_targets(info, i).insert(info.discovery_keys.view()[i])
        },
{
    let keys = info.discovery_keys.view();
    assert forall|x: AuthorityDiscoveryId| #[trigger] session_targets(info, i).contains(x)
        implies session_targets(info, i + 1).contains(x) by {
        let j = choose|j: int|
            0 <= j < i && j < keys.len() && !is_our_index(info, j) && keys[j] == x;
        assert(0 <= j < i + 1 && j < keys.len() && !is_our_index(info, j) && keys[j] == x);
    }
    if is_our_index(info, i) {
        assert forall|x: AuthorityDiscoveryId| #[trigger] session_targets(info, i + 1).contains(x)
            implies session_targets(info, i).contains(x) by {
            let j = choose|j: int|
                0 <= j < i + 1 && j < keys.len() && !is_our_index(info, j) && keys[j] == x;
            assert(j != i);
        }
        assert(session_targets(info, i + 1) =~= session_targets(info, i));
    } else {
        assert(session_targets(info, i + 1).contains(keys[i])) by {
            assert(0 <= i < i + 1 && i < keys.len() && !is_our_index(info, i) && keys[i] == keys[i]);
        }
        assert forall|x: AuthorityDiscoveryId| #[trigger] session_targets(info, i + 1).contains(x)
            implies session_targets(info, i).insert(keys[i]).contains(x) by {
            let j = choose|j: int|
                0 <= j < i + 1 && j < keys.len() && !is_our_index(info, j) && keys[j] == x;
            if j < i {
                assert(session_targets(info, i).contains(x));
            } else {
                assert(x == keys[i]);
            }
        }
        assert(session_targets(info, i + 1) =~= session_targets(info, i).insert(keys[i]));
    }
}

/// Add to `out` the first `cap` discovery identities of `info`, our own
/// excluded.
fn add_session_targets(out: &mut AuthoritySet, info: &SessionInfo, cap: usize)
    requires
        old(out).wf(),
        cap <= info.discovery_keys.len(),
    ensures
        final(out).wf(),
        final(out)@ == old(out)@.union(session_targets(*info, cap as int)),
{
    let ghost base = out@;
    proof {
        assert(session_targets(*info, 0) =~= Set::<AuthorityDiscoveryId>::empty());
        assert(out@ =~= base.union(session_targets(*info, 0)));
    }
    let mut i: usize = 0;
    while i < cap
        invariant
            out.wf(),
            cap <= info.discovery_keys.view().len(),
            i <= cap,
            out@ == base.union(session_targets(*info, i as int)),
        decreases cap - i,
    {
        let ours = match info.our_index {
            Some(j) => j == i,
            None => false,
        };
        proof {
            lemma_session_targets_step(*info, i as int);
        }
        if !ours {
            out.insert(info.discovery_keys[i]);
            proof {
                assert(out@ =~= base.union(session_targets(*info, i as int + 1)));
            }
        } else {
            proof {
                assert(out@ =~= base.union(session_targets(*info, i as int + 1)));
            }
        }
        i += 1;
    }
}

/// Determine all validators that should receive the dispute request: the
/// parachain validators of the session the dispute occurred in, and all
/// authorities of all currently active sessions, ourselves excluded; a peer
/// relevant to several sessions appears once.
pub fn get_relevant_validators(own: &SessionInfo, active_sessions: &Vec<SessionInfo>) -> (r: AuthoritySet)
    ensures
        r.wf(),
        r@ == relevant_validators(*own, active_sessions.view()),
{
    let mut out = AuthoritySet::new();
    let cap = if own.validator_count <= own.discovery_keys.len() {
        own.validator_count
    } else {
        own.discovery_keys.len()
    };
    add_session_targets(&mut out, own, cap);
    proof {
        assert(out@ =~= validator_targets(*own));
    }
    let mut s: usize = 0;
    while s < active_sessions.len()
        invariant
            out.wf(),
            s <= active_sessions.view().len(),
            out@ == validator_targets(*own).union(
                all_authority_targets(active_sessions.view().take(s as int))),
        decreases active_sessions.view().len() - s,
    {
        let info = &active_sessions[s];
        let n = info.discovery_keys.len();
        add_session_targets(&mut out, info, n);
        proof {
            let pre = active_sessions.view().take(s as int + 1);
            assert(pre.drop_last() =~= active_sessions.view().take(s as int));
            assert(pre.last() == active_sessions.view()[s as int]);
            assert(out@ =~= validator_targets(*own).union(all_authority_targets(pre)));
        }
        s += 1;
    }
    proof {
        assert(active_sessions.view().take(active_sessions.view().len() as int)
            =~= active_sessions.view());
        assert(out@ =~= relevant_validators(*own, active_sessions.view()));
    }
    out
}

} // verus!
