//! The per-dispute tracking map: each tracked peer with its delivery status.
//!
//! The store is a duplicate-free association list, viewed in contracts as a
//! `Map` from peer identity to [`Delivery`].  Keeping one entry per peer is
//! what makes "at most one attempt in flight per peer" a structural fact.

use vstd::prelude::*;
use crate::authority_set::AuthoritySet;
use crate::status::{AuthorityDiscoveryId, Delivery, DeliveryStatus};

verus! {

spec fn entries_wf<H>(s: Seq<(AuthorityDiscoveryId, DeliveryStatus<H>)>) -> bool {
    forall|i: int, j: int|
        0 <= i < j < s.len() ==> (#[trigger] s[i]).0 != (#[trigger] s[j]).0
}

spec fn entries_contain<H>(s: Seq<(AuthorityDiscoveryId, DeliveryStatus<H>)>, k: AuthorityDiscoveryId) -> bool {
    exists|i: int| 0 <= i < s.len() && (#[trigger] s[i]).0 == k
}

spec fn entry_index<H>(s: Seq<(AuthorityDiscoveryId, DeliveryStatus<H>)>, k: AuthorityDiscoveryId) -> int {
    choose|i: int| 0 <= i < s.len() && (#[trigger] s[i]).0 == k
}

spec fn entries_map<H>(s: Seq<(AuthorityDiscoveryId, DeliveryStatus<H>)>) -> Map<AuthorityDiscoveryId, Delivery> {
    Map::new(
        |k: AuthorityDiscoveryId| entries_contain(s, k),
        |k: AuthorityDiscoveryId| s[entry_index(s, k)].1@,
    )
}

proof fn lemma_entry_at<H>(s: Seq<(AuthorityDiscoveryId, DeliveryStatus<H>)>, i: int)
    requires
        entries_wf(s),
        0 <= i < s.len(),
    ensures
        entries_contain(s, s[i].0),
        entry_index(s, s[i].0) == i,
        entries_map(s).dom().contains(s[i].0),
        entries_map(s)[s[i].0] == s[i].1@,
{
    assert(entries_contain(s, s[i].0)) by {
        assert(0 <= i < s.len() && s[i].0 == s[i].0);
    }
    let j = entry_index(s, s[i].0);
    assert(0 <= j < s.len() && s[j].0 == s[i].0);
    if j < i {
        assert(s[j].0 != s[i].0);
    } else if i < j {
        assert(s[i].0 != s[j].0);
    }
}

proof fn lemma_push<H>(
    s: Seq<(AuthorityDiscoveryId, DeliveryStatus<H>)>,
    k: AuthorityDiscoveryId,
    st: DeliveryStatus<H>,
)
    requires
        entries_wf(s),
        !entries_contain(s, k),
    ensures
        entries_wf(s.push((k, st))),
        entries_map(s.push((k, st))) == entries_map(s).insert(k, st@),
{
    let t = s.push((k, st));
    assert forall|i: int| 0 <= i < s.len() implies (#[trigger] s[i]).0 != k by {
        if s[i].0 == k {
            assert(entries_contain(s, k));
        }
    }
    assert forall|i: int, j: int| 0 <= i < j < t.len()
        implies (#[trigger] t[i]).0 != (#[trigger] t[j]).0 by {
        if j + 1 < t.len() {
            assert(t[i] == s[i] && t[j] == s[j]);
        } else {
            assert(t[j] == (k, st) && t[i] == s[i]);
        }
    }
    assert(t[s.len() as int].0 == k);
    lemma_entry_at(t, s.len() as int);
    assert forall|x: AuthorityDiscoveryId| #[trigger] entries_contain(s, x)
        implies entries_contain(t, x) && entries_map(t)[x] == entries_map(s)[x] by {
        let i = choose|i: int| 0 <= i < s.len() && (#[trigger] s[i]).0 == x;
        assert(t[i] == s[i]);
        lemma_entry_at(t, i);
        lemma_entry_at(s, i);
    }
    assert forall|x: AuthorityDiscoveryId| entries_contain(t, x) && x != k
        implies entries_contain(s, x) by {
        let i = choose|i: int| 0 <= i < t.len() && (#[trigger] t[i]).0 == x;
        assert(i < s.len());
        assert(s[i].0 == x);
    }
    assert(entries_map(t) =~= entries_map(s).insert(k, st@));
}

proof fn lemma_remove<H>(s: Seq<(AuthorityDiscoveryId, DeliveryStatus<H>)>, i: int)
    requires
        entries_wf(s),
        0 <= i < s.len(),
    ensures
        s.remove(i).len() == s.len() - 1,
        forall|j: int| 0 <= j < i ==> #[trigger] s.remove(i)[j] == s[j],
        forall|j: int| i <= j < s.len() - 1 ==> #[trigger] s.remove(i)[j] == s[j + 1],
        entries_wf(s.remove(i)),
        entries_map(s.remove(i)) == entries_map(s).remove(s[i].0),
{
    let t = s.remove(i);
    let k = s[i].0;
    assert forall|j: int| 0 <= j < i implies #[trigger] t[j] == s[j] by {
        assert(t[j] == s.subrange(0, i)[j]);
    }
    assert forall|j: int| i <= j < s.len() - 1 implies #[trigger] t[j] == s[j + 1] by {
        assert(t[j] == s.subrange(i + 1, s.len() as int)[j - i]);
    }
    assert forall|a: int, b: int| 0 <= a < b < t.len()
        implies (#[trigger] t[a]).0 != (#[trigger] t[b]).0 by {
        let a2: int = if a < i { a } else { a + 1 };
        let b2: int = if b < i { b } else { b + 1 };
        assert(t[a] == s[a2] && t[b] == s[b2]);
        assert(s[a2].0 != s[b2].0);
    }
    assert forall|j: int| 0 <= j < t.len() implies (#[trigger] t[j]).0 != k by {
        let j2: int = if j < i { j } else { j + 1 };
        assert(t[j] == s[j2]);
        if j2 < i {
            assert(s[j2].0 != s[i].0);
        } else {
            assert(s[i].0 != s[j2].0);
        }
    }
    assert(!entries_contain(t, k));
    assert forall|x: AuthorityDiscoveryId| x != k && #[trigger] entries_contain(s, x)
        implies entries_contain(t, x) && entries_map(t)[x] == entries_map(s)[x] by {
        let j = choose|j: int| 0 <= j < s.len() && (#[trigger] s[j]).0 == x;
        let j2: int = if j < i { j } else { j - 1 };
        assert(t[j2] == s[j]);
        lemma_entry_at(t, j2);
        lemma_entry_at(s, j);
    }
    assert forall|x: AuthorityDiscoveryId| #[trigger] entries_contain(t, x)
        implies entries_contain(s, x) by {
        let j = choose|j: int| 0 <= j < t.len() && (#[trigger] t[j]).0 == x;
        let j2: int = if j < i { j } else { j + 1 };
        assert(t[j] == s[j2]);
        assert(s[j2].0 == x);
    }
    assert(entries_map(t) =~= entries_map(s).remove(k));
}

/// Tracking map from peer identity to delivery status.  `H` is the driver's
/// handle to the peer's response-wait task.
pub struct Deliveries<H> {
    entries: Vec<(AuthorityDiscoveryId, DeliveryStatus<H>)>,
}

impl<H> View for Deliveries<H> {
    type V = Map<AuthorityDiscoveryId, Delivery>;

    closed spec fn view(&self) -> Map<AuthorityDiscoveryId, Delivery> {
        entries_map(self.entries.view())
    }
}

impl<H> Deliveries<H> {
    /// Well-formed: no peer has two entries.
    pub closed spec fn wf(self) -> bool {
        entries_wf(self.entries.view())
    }

    /// How many entries the store holds.
    pub closed spec fn entry_count(self) -> nat {
        self.entries.view().len()
    }

    /// The peer that owns the entry at position `i`.
    pub closed spec fn entry_key(self, i: int) -> AuthorityDiscoveryId {
        self.entries.view()[i].0
    }

    /// At most one attempt per peer: two entries for the same peer are the
    /// same entry, so a peer can never have two sends in flight at once.
    pub proof fn lemma_at_most_one_entry_per_peer(self, i: int, j: int)
        requires
            self.wf(),
            0 <= i < self.entry_count(),
            0 <= j < self.entry_count(),
            self.entry_key(i) == self.entry_key(j),
        ensures
            i == j,
    {
        if i < j {
            assert(self.entries.view()[i].0 != self.entries.view()[j].0);
        } else if j < i {
            assert(self.entries.view()[j].0 != self.entries.view()[i].0);
        }
    }

    /// The empty map.
    pub fn new() -> (d: Self)
        ensures
            d.wf(),
            d@ == Map::<AuthorityDiscoveryId, Delivery>::empty(),
    {
        let d = Deliveries { entries: Vec::new() };
        proof {
            assert(d@ =~= Map::<AuthorityDiscoveryId, Delivery>::empty());
        }
        d
    }

    /// Whether `k` is tracked.
    pub fn contains_key(&self, k: AuthorityDiscoveryId) -> (r: bool)
        requires
            self.wf(),
        ensures
            r == self@.dom().contains(k),
    {
        let mut i: usize = 0;
        while i < self.entries.len()
            invariant
                i <= self.entries.view().len(),
                forall|j: int| 0 <= j < i ==> (#[trigger] self.entries.view()[j]).0 != k,
            decreases self.entries.view().len() - i,
        {
            if self.entries[i].0 == k {
                proof {
                    assert(entries_contain(self.entries.view(), k)) by {
                        assert((self.entries.view()[i as int]).0 == k);
                    }
                }
                return true;
            }
            i += 1;
        }
        proof {
            assert(!entries_contain(self.entries.view(), k));
        }
        false
    }

    /// The tracked status of `k`, if any.
    pub fn status_of(&self, k: AuthorityDiscoveryId) -> (r: Option<Delivery>)
        requires
            self.wf(),
        ensures
            r == if self@.dom().contains(k) {
                Some(self@[k])
            } else {
                None::<Delivery>
            },
    {
        let mut i: usize = 0;
        while i < self.entries.len()
            invariant
                self.wf(),
                i <= self.entries.view().len(),
                forall|j: int| 0 <= j < i ==> (#[trigger] self.entries.view()[j]).0 != k,
            decreases self.entries.view().len() - i,
        {
            if self.entries[i].0 == k {
                proof {
                    lemma_entry_at(self.entries.view(), i as int);
                }
                let status = match &self.entries[i].1 {
                    DeliveryStatus::Pending(_) => Delivery::Pending,
                    DeliveryStatus::Succeeded => Delivery::Succeeded,
                };
                return Some(status);
            }
            i += 1;
        }
        proof {
            assert(!entries_contain(self.entries.view(), k));
        }
        None
    }

    /// Track `k` with the given status; `k` must not be tracked yet.
    pub fn insert(&mut self, k: AuthorityDiscoveryId, status: DeliveryStatus<H>)
        requires
            old(self).wf(),
            !old(self)@.dom().contains(k),
        ensures
            final(self).wf(),
            final(self)@ == old(self)@.insert(k, status@),
    {
        let ghost s0 = self.entries.view();
        let ghost st = status;
        proof {
            lemma_push(s0, k, st);
        }
        self.entries.push((k, status));
    }

    /// Drop the entry of `k`; a `k` that is not tracked is left alone.
    pub fn remove(&mut self, k: AuthorityDiscoveryId)
        requires
            old(self).wf(),
        ensures
            final(self).wf(),
            final(self)@ == old(self)@.remove(k),
    {
        let mut i: usize = 0;
        while i < self.entries.len()
            invariant
                self.wf(),
                self.entries.view() == old(self).entries.view(),
                i <= self.entries.view().len(),
                forall|j: int| 0 <= j < i ==> (#[trigger] self.entries.view()[j]).0 != k,
            decreases self.entries.view().len() - i,
        {
            if self.entries[i].0 == k {
                proof {
                    lemma_remove(self.entries.view(), i as int);
                }
                let _ = self.entries.remove(i);
                return;
            }
            i += 1;
        }
        proof {
            assert(!entries_contain(self.entries.view(), k));
            assert(self@ =~= old(self)@.remove(k));
        }
    }

    /// Overwrite the status of the tracked peer `k` with `Succeeded`.
    pub fn confirm(&mut self, k: AuthorityDiscoveryId)
        requires
            old(self).wf(),
            old(self)@.dom().contains(k),
        ensures
            final(self).wf(),
            final(self)@ == old(self)@.insert(k, Delivery::Succeeded),
    {
        self.remove(k);
        self.insert(k, DeliveryStatus::Succeeded);
        proof {
            assert(self@ =~= old(self)@.insert(k, Delivery::Succeeded));
        }
    }

    /// Keep only the entries of peers in `target`, dropping the rest (and
    /// with them their handles, which cancels the pruned attempts).
    pub fn retain(&mut self, target: &AuthoritySet)
        requires
            old(self).wf(),
        ensures
            final(self).wf(),
            final(self)@ == old(self)@.restrict(target@),
    {
        let ghost orig = old(self)@;
        let mut i: usize = 0;
        while i < self.entries.len()
            invariant
                self.wf(),
                i <= self.entries.view().len(),
                forall|j: int| 0 <= j < i ==> target@.contains((#[trigger] self.entries.view()[j]).0),
                forall|x: AuthorityDiscoveryId| #[trigger] self@.dom().contains(x)
                    ==> orig.dom().contains(x) && self@[x] == orig[x],
                forall|x: AuthorityDiscoveryId| orig.dom().contains(x) && target@.contains(x)
                    ==> self@.dom().contains(x),
            decreases self.entries.view().len() - i,
        {
            let key = self.entries[i].0;
            proof {
                lemma_entry_at(self.entries.view(), i as int);
            }
            if !target.contains(key) {
                let ghost s0 = self.entries.view();
                let ghost m0 = self@;
                proof {
                    lemma_remove(s0, i as int);
                    assert(m0 == entries_map(s0));
                }
                let _ = self.entries.remove(i);
                proof {
                    assert forall|x: AuthorityDiscoveryId|
                        orig.dom().contains(x) && target@.contains(x)
                        implies self@.dom().contains(x) by {
                        assert(x != key);
                        assert(m0.dom().contains(x));
                    }
                    assert forall|x: AuthorityDiscoveryId| #[trigger] self@.dom().contains(x)
                        implies orig.dom().contains(x) && self@[x] == orig[x] by {
                        assert(self@ == m0.remove(key));
                        assert(m0.dom().contains(x));
                        assert(orig.dom().contains(x));
                        assert(self@[x] == m0[x]);
                    }
                }
            } else {
                i += 1;
            }
        }
        proof {
            assert forall|x: AuthorityDiscoveryId| #[trigger] self@.dom().contains(x)
                implies target@.contains(x) by {
                let j = choose|j: int|
                    0 <= j < self.entries.view().len() && (#[trigger] self.entries.view()[j]).0 == x;
                assert(target@.contains(self.entries.view()[j].0));
            }
            assert(self@ =~= orig.restrict(target@));
        }
    }
}

} // verus!
