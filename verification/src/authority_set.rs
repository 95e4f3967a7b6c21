//! The resolved target set of one refresh: every relevant peer, each exactly
//! once.

use vstd::prelude::*;
use crate::status::AuthorityDiscoveryId;

verus! {

/// A set of authority discovery identities, stored as a duplicate-free list so
/// that the driver can also walk it in a fixed order.
pub struct AuthoritySet {
    ids: Vec<AuthorityDiscoveryId>,
}

impl View for AuthoritySet {
    type V = Set<AuthorityDiscoveryId>;

    closed spec fn view(&self) -> Set<AuthorityDiscoveryId> {
        Set::new(|x: AuthorityDiscoveryId| self.ids.view().contains(x))
    }
}

impl AuthoritySet {
    /// The peers in the order they were admitted.
    pub closed spec fn ids_seq(self) -> Seq<AuthorityDiscoveryId> {
        self.ids.view()
    }

    /// Well-formed: no peer is listed twice.
    pub closed spec fn wf(self) -> bool {
        forall|i: int, j: int|
            0 <= i < j < self.ids.view().len()
                ==> #[trigger] self.ids.view()[i] != #[trigger] self.ids.view()[j]
    }

    /// Membership in the set is membership in the underlying list.
    pub proof fn lemma_view_contains(self, x: AuthorityDiscoveryId)
        ensures
            self@.contains(x) == self.ids_seq().contains(x),
    {
    }

    /// Each peer has a single position in the list: a target set never names
    /// the same peer twice.
    pub proof fn lemma_ids_unique(self, i: int, j: int)
        requires
            self.wf(),
            0 <= i < self.ids_seq().len(),
            0 <= j < self.ids_seq().len(),
            self.ids_seq()[i] == self.ids_seq()[j],
        ensures
            i == j,
    {
    }

    /// A peer relevant to several sessions appears once: the set holds
    /// exactly as many peers as its duplicate-free list, so the list length
    /// is the number of distinct targets.
    pub proof fn lemma_len_is_cardinality(self)
        requires
            self.wf(),
        ensures
            self@.finite(),
            self@.len() == self.ids_seq().len(),
    {
        assert(self.ids_seq().no_duplicates()) by {
            assert forall|i: int, j: int|
                0 <= i < self.ids_seq().len() && 0 <= j < self.ids_seq().len() && i != j
                implies self.ids_seq()[i] != self.ids_seq()[j] by {
                if i < j {
                    assert(self.ids.view()[i] != self.ids.view()[j]);
                } else {
                    assert(self.ids.view()[j] != self.ids.view()[i]);
                }
            }
        }
        self.ids_seq().unique_seq_to_set();
        assert(self@ =~= self.ids_seq().to_set());
    }

    /// The empty target set.
    pub fn new() -> (s: Self)
        ensures
            s.wf(),
            s@ == Set::<AuthorityDiscoveryId>::empty(),
            s.ids_seq() == Seq::<AuthorityDiscoveryId>::empty(),
    {
        let s = AuthoritySet { ids: Vec::new() };
        proof {
            assert(s@ =~= Set::<AuthorityDiscoveryId>::empty());
            assert(s.ids_seq() =~= Seq::<AuthorityDiscoveryId>::empty());
        }
        s
    }

    /// How many peers the set holds.
    pub fn len(&self) -> (n: usize)
        ensures
            n == self.ids_seq().len(),
    {
        self.ids.len()
    }

    /// The peer at position `i`.
    pub fn get(&self, i: usize) -> (x: AuthorityDiscoveryId)
        requires
            i < self.ids_seq().len(),
        ensures
            x == self.ids_seq()[i as int],
            self@.contains(x),
    {
        let x = self.ids[i];
        proof {
            assert(self.ids.view().contains(x)) by {
                assert(self.ids.view()[i as int] == x);
            }
        }
        x
    }

    /// Whether `x` is in the set.
    pub fn contains(&self, x: AuthorityDiscoveryId) -> (r: bool)
        ensures
            r == self@.contains(x),
    {
        let mut k: usize = 0;
        while k < self.ids.len()
            invariant
                k <= self.ids.view().len(),
                forall|j: int| 0 <= j < k ==> #[trigger] self.ids.view()[j] != x,
            decreases self.ids.view().len() - k,
        {
            if self.ids[k] == x {
                proof {
                    assert(self.ids.view().contains(x)) by {
                        assert(self.ids.view()[k as int] == x);
                    }
                }
                return true;
            }
            k += 1;
        }
        proof {
            assert(!self.ids.view().contains(x));
        }
        false
    }

    /// Add `x`; a peer already present is not added again.
    pub fn insert(&mut self, x: AuthorityDiscoveryId)
        requires
            old(self).wf(),
        ensures
            final(self).wf(),
            final(self)@ == old(self)@.insert(x),
    {
        let present = self.contains(x);
        if !present {
            proof {
                assert forall|j: int| 0 <= j < self.ids.view().len()
                    implies #[trigger] self.ids.view()[j] != x by {
                    if self.ids.view()[j] == x {
                        assert(self.ids.view().contains(x));
                    }
                }
            }
            self.ids.push(x);
            proof {
                let o = old(self).ids.view();
                let n = self.ids.view();
                assert forall|i: int, j: int| 0 <= i < j < n.len()
                    implies #[trigger] n[i] != #[trigger] n[j] by {
                    if j + 1 < n.len() {
                        assert(n[i] == o[i] && n[j] == o[j]);
                    } else {
                        assert(n[j] == x && n[i] == o[i]);
                    }
                }
                assert forall|y: AuthorityDiscoveryId| #[trigger] n.contains(y)
                    implies old(self)@.insert(x).contains(y) by {
                    let i = choose|i: int| 0 <= i < n.len() && n[i] == y;
                    if i < o.len() {
                        assert(o[i] == y);
                        assert(o.contains(y));
                    }
                }
                assert forall|y: AuthorityDiscoveryId| old(self)@.insert(x).contains(y)
                    implies n.contains(y) by {
                    if y == x {
                        assert(n[n.len() - 1] == x);
                    } else {
                        let i = choose|i: int| 0 <= i < o.len() && o[i] == y;
                        assert(n[i] == y);
                    }
                }
                assert(self@ =~= old(self)@.insert(x));
            }
        } else {
            proof {
                assert(self@ =~= old(self)@.insert(x));
            }
        }
    }
}

} // verus!
