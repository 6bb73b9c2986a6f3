//! The vector clock.

use vstd::prelude::*;
use vstd::std_specs::hash::*;
use std::collections::HashMap;
use crate::collect::{lemma_take_all, lemma_take_next, map_keys};
use crate::ids::PeerId;
use crate::sorted::in_order;

verus! {

/// Vector clock: for every peer the number of that peer's events that have
/// been seen. A peer without an entry counts as zero.
#[derive(Debug, PartialEq, Eq)]
pub struct VectorClock {
    /// The counters, by the number of the peer's identifier.
    pub clocks: HashMap<u128, u64>,
}

/// The counter that `clocks` holds for `peer`: zero where it holds none.
pub open spec fn counter(clocks: Map<u128, u64>, peer: u128) -> u64 {
    if clocks.contains_key(peer) {
        clocks[peer]
    } else {
        0
    }
}

/// The component-wise greater of two clocks, with an entry for every peer
/// that has one in either.
pub open spec fn joined(a: Map<u128, u64>, b: Map<u128, u64>) -> Map<u128, u64> {
    Map::new(
        |peer: u128| a.contains_key(peer) || b.contains_key(peer),
        |peer: u128|
            if counter(a, peer) >= counter(b, peer) {
                counter(a, peer)
            } else {
                counter(b, peer)
            },
    )
}

/// The happens-before order of clocks: no counter of `a` is above that of
/// `b`, and one at least is below.
pub open spec fn precedes(a: Map<u128, u64>, b: Map<u128, u64>) -> bool {
    &&& forall|peer: u128| counter(a, peer) <= #[trigger] counter(b, peer)
    &&& exists|peer: u128| counter(a, peer) < #[trigger] counter(b, peer)
}

/// Two clocks are concurrent where neither happened before the other.
pub open spec fn concurrent(a: Map<u128, u64>, b: Map<u128, u64>) -> bool {
    !precedes(a, b) && !precedes(b, a)
}

impl View for VectorClock {
    type V = Map<u128, u64>;

    open spec fn view(&self) -> Map<u128, u64> {
        self.clocks@
    }
}

impl VectorClock {
    /// The clock that has seen nothing.
    pub fn new() -> (clock: Self)
        ensures
            clock@ == Map::<u128, u64>::empty(),
    {
        VectorClock { clocks: HashMap::new() }
    }

    /// Counts one more event of `peer_id`.
    pub fn increment(&mut self, peer_id: PeerId)
        requires
            counter(old(self)@, peer_id.0) < u64::MAX,
        ensures
            final(self)@ == old(self)@.insert(peer_id.0, (counter(old(self)@, peer_id.0) + 1) as u64),
    {
        broadcast use group_hash_axioms;
        let seen = self.get(&peer_id);
        self.clocks.insert(peer_id.0, seen + 1);
    }

    /// The number of events of `peer_id` that this clock has seen.
    pub fn get(&self, peer_id: &PeerId) -> (seen: u64)
        ensures
            seen == counter(self@, peer_id.0),
    {
        broadcast use group_hash_axioms;
        match self.clocks.get(&peer_id.0) {
            Some(seen) => *seen,
            None => 0,
        }
    }

    /// Merges another clock into this one: every counter becomes the greater
    /// of the two.
    pub fn merge(&mut self, other: &VectorClock)
        ensures
            final(self)@ == joined(old(self)@, other@),
    {
        broadcast use group_hash_axioms;
        let peers = map_keys(&other.clocks);
        let mut i: usize = 0;
        while i < peers.len()
            invariant
                i <= peers.len(),
                peers@.to_set() == other@.dom(),
                forall|peer: u128|
                    self@.contains_key(peer) <==> old(self)@.contains_key(peer) || peers@.take(
                        i as int,
                    ).contains(peer),
                forall|peer: u128| #[trigger]
                    self@.contains_key(peer) ==> self@[peer] == if peers@.take(i as int).contains(
                        peer,
                    ) {
                        joined(old(self)@, other@)[peer]
                    } else {
                        old(self)@[peer]
                    },
            decreases peers.len() - i,
        {
            let peer = peers[i];
            proof {
                lemma_take_next(peers@, i as int);
                assert(peers@.to_set().contains(peer));
            }
            let theirs = other.get(&PeerId(peer));
            let ours = self.get(&PeerId(peer));
            let ghost before = self@;
            if ours >= theirs {
                self.clocks.insert(peer, ours);
            } else {
                self.clocks.insert(peer, theirs);
            }
            proof {
                assert(before.contains_key(peer) ==> counter(before, peer) == counter(
                    joined(old(self)@, other@),
                    peer,
                ) || counter(before, peer) == counter(old(self)@, peer));
            }
            i = i + 1;
        }
        proof {
            lemma_take_all(peers@);
            assert forall|peer: u128| self@.contains_key(peer) == joined(
                old(self)@,
                other@,
            ).contains_key(peer) by {
                if other@.contains_key(peer) {
                    assert(peers@.to_set().contains(peer));
                }
                if peers@.contains(peer) {
                    assert(peers@.to_set().contains(peer));
                }
            }
            assert forall|peer: u128| #[trigger] self@.contains_key(peer) implies self@[peer]
                == joined(old(self)@, other@)[peer] by {
                if !peers@.contains(peer) {
                    assert(!peers@.to_set().contains(peer));
                }
            }
            assert(self@ =~= joined(old(self)@, other@));
        }
    }

    /// The counters with their peers, in the rising order of the peers'
    /// numbers: the order in which a clock is written down, so that equal
    /// clocks are written alike.
    pub fn entries(&self) -> (entries: Vec<(u128, u64)>)
        ensures
            forall|i: int, j: int| 0 <= i < j < entries@.len() ==> entries@[i].0 < entries@[j].0,
            forall|i: int|
                0 <= i < entries@.len() ==> self@.contains_key((#[trigger] entries@[i]).0)
                    && self@[entries@[i].0] == entries@[i].1,
            forall|peer: u128|
                self@.contains_key(peer) ==> exists|i: int|
                    0 <= i < entries@.len() && (#[trigger] entries@[i]).0 == peer,
    {
        broadcast use group_hash_axioms;
        let peers = map_keys(&self.clocks);
        let sorted = in_order(&peers);
        let mut entries: Vec<(u128, u64)> = Vec::new();
        let mut i: usize = 0;
        while i < sorted.len()
            invariant
                i <= sorted.len(),
                entries@.len() == i,
                forall|peer: u128| sorted@.contains(peer) <==> self@.contains_key(peer),
                forall|k: int|
                    0 <= k < i ==> (#[trigger] entries@[k]).0 == sorted@[k] && self@[sorted@[k]]
                        == entries@[k].1,
            decreases sorted.len() - i,
        {
            let peer = sorted[i];
            assert(sorted@.contains(peer));
            let seen = self.get(&PeerId(peer));
            entries.push((peer, seen));
            i = i + 1;
        }
        proof {
            assert forall|i: int| 0 <= i < entries@.len() implies self@.contains_key(
                (#[trigger] entries@[i]).0,
            ) && self@[entries@[i].0] == entries@[i].1 by {
                assert(sorted@.contains(sorted@[i]));
            }
            assert forall|peer: u128| self@.contains_key(peer) implies exists|i: int|
                0 <= i < entries@.len() && (#[trigger] entries@[i]).0 == peer by {
                assert(sorted@.contains(peer));
                let i = choose|i: int| 0 <= i < sorted@.len() && sorted@[i] == peer;
                assert(entries@[i].0 == peer);
            }
            assert forall|i: int, j: int| 0 <= i < j < entries@.len() implies entries@[i].0
                < entries@[j].0 by {
                assert(entries@[i].0 == sorted@[i] && entries@[j].0 == sorted@[j]);
            }
        }
        entries
    }

    /// Whether this clock happened before `other`.
    pub fn happened_before(&self, other: &VectorClock) -> (before: bool)
        ensures
            before == precedes(self@, other@),
    {
        broadcast use group_hash_axioms;
        let mut strictly_less = false;
        let ghost mut witness: u128 = 0;
        let own = map_keys(&self.clocks);
        let mut i: usize = 0;
        while i < own.len()
            invariant
                i <= own.len(),
                own@.to_set() == self@.dom(),
                forall|peer: u128| #[trigger]
                    own@.take(i as int).contains(peer) ==> counter(self@, peer) <= counter(
                        other@,
                        peer,
                    ),
                strictly_less ==> counter(self@, witness) < counter(other@, witness),
                !strictly_less ==> forall|peer: u128| #[trigger]
                    own@.take(i as int).contains(peer) ==> counter(self@, peer) == counter(
                        other@,
                        peer,
                    ),
            decreases own.len() - i,
        {
            let peer = own[i];
            proof {
                lemma_take_next(own@, i as int);
            }
            let ours = self.get(&PeerId(peer));
            let theirs = other.get(&PeerId(peer));
            if ours > theirs {
                assert(!precedes(self@, other@));
                return false;
            }
            if ours < theirs {
                strictly_less = true;
                proof {
                    witness = peer;
                }
            }
            i = i + 1;
        }
        proof {
            lemma_take_all(own@);
            assert forall|peer: u128| counter(self@, peer) <= #[trigger] counter(other@, peer) by {
                if self@.contains_key(peer) {
                    assert(own@.to_set().contains(peer));
                }
            }
        }
        let others = map_keys(&other.clocks);
        let mut j: usize = 0;
        while j < others.len()
            invariant
                j <= others.len(),
                others@.to_set() == other@.dom(),
                strictly_less ==> counter(self@, witness) < counter(other@, witness),
                !strictly_less ==> forall|peer: u128| #[trigger]
                    others@.take(j as int).contains(peer) ==> counter(self@, peer) == counter(
                        other@,
                        peer,
                    ),
                forall|peer: u128|
                    self@.contains_key(peer) && !strictly_less ==> counter(self@, peer)
                        == #[trigger] counter(other@, peer),
            decreases others.len() - j,
        {
            let peer = others[j];
            proof {
                lemma_take_next(others@, j as int);
            }
            let theirs = other.get(&PeerId(peer));
            if !self.clocks.contains_key(&peer) && theirs > 0 {
                strictly_less = true;
                proof {
                    witness = peer;
                }
            }
            j = j + 1;
        }
        proof {
            lemma_take_all(others@);
            if !strictly_less {
                assert forall|peer: u128| counter(self@, peer) == #[trigger] counter(
                    other@,
                    peer,
                ) by {
                    if other@.contains_key(peer) {
                        assert(others@.to_set().contains(peer));
                    }
                }
            }
        }
        strictly_less
    }

    /// Whether this clock and `other` are concurrent: neither happened
    /// before the other.
    pub fn concurrent(&self, other: &VectorClock) -> (neither: bool)
        ensures
            neither == concurrent(self@, other@),
    {
        !self.happened_before(other) && !other.happened_before(self)
    }
}

impl Default for VectorClock {
    fn default() -> (clock: Self)
        ensures
            clock@ == Map::<u128, u64>::empty(),
    {
        VectorClock::new()
    }
}

impl Clone for VectorClock {
    fn clone(&self) -> (copy: Self)
        ensures
            copy@ == self@,
    {
        VectorClock { clocks: self.clocks.clone() }
    }
}

/// No clock happened before itself.
pub proof fn lemma_precedes_irreflexive(a: Map<u128, u64>)
    ensures
        !precedes(a, a),
{
}

/// Of two clocks at most one happened before the other.
pub proof fn lemma_precedes_asymmetric(a: Map<u128, u64>, b: Map<u128, u64>)
    requires
        precedes(a, b),
    ensures
        !precedes(b, a),
{
    let peer = choose|peer: u128| counter(a, peer) < #[trigger] counter(b, peer);
    assert(!(counter(b, peer) <= counter(a, peer)));
}

/// Being concurrent does not depend on the order of the two clocks.
pub proof fn lemma_concurrent_symmetric(a: Map<u128, u64>, b: Map<u128, u64>)
    ensures
        concurrent(a, b) == concurrent(b, a),
{
}

} // verus!
