//! The peers that the transport is connected to.

use vstd::prelude::*;
use crate::crdt::hlc::epoch_nanos;
use crate::protocol::{clone_texts, texts};

verus! {

/// What is known of a connected peer. The peer and its addresses are held
/// as the text that the transport writes them in; the times are in
/// nanoseconds since the Unix epoch.
#[derive(Debug)]
pub struct PeerInfo {
    pub peer_id: String,
    pub addresses: Vec<String>,
    pub connected_at: u128,
    pub last_seen: u128,
}

/// What is known of a peer, as a mathematical value.
pub struct PeerInfoView {
    pub peer_id: Seq<char>,
    pub addresses: Seq<Seq<char>>,
    pub connected_at: u128,
    pub last_seen: u128,
}

impl View for PeerInfo {
    type V = PeerInfoView;

    open spec fn view(&self) -> PeerInfoView {
        PeerInfoView {
            peer_id: self.peer_id@,
            addresses: texts(self.addresses@),
            connected_at: self.connected_at,
            last_seen: self.last_seen,
        }
    }
}

impl Clone for PeerInfo {
    fn clone(&self) -> (copy: Self)
        ensures
            copy@ == self@,
    {
        PeerInfo {
            peer_id: self.peer_id.clone(),
            addresses: clone_texts(&self.addresses),
            connected_at: self.connected_at,
            last_seen: self.last_seen,
        }
    }
}

/// The connected peers, each once.
///
/// The view maps the text of a peer's identifier to what is known of the
/// peer.
#[derive(Debug)]
pub struct PeerManager {
    peers: Vec<PeerInfo>,
}

/// Where the peer `id` stands in `peers`.
pub closed spec fn position(peers: Seq<PeerInfo>, id: Seq<char>) -> int {
    choose|i: int| 0 <= i < peers.len() && peers[i].peer_id@ == id
}

/// `peers` holds the peer `id`.
pub closed spec fn listed(peers: Seq<PeerInfo>, id: Seq<char>) -> bool {
    exists|i: int| 0 <= i < peers.len() && peers[i].peer_id@ == id
}

/// What is known of the peers once the peer `id` was seen at `now`: its
/// time of last sight is `now`, and all else is as before. Nothing changes
/// where the peer is not held.
pub open spec fn seen_at(
    peers: Map<Seq<char>, PeerInfoView>,
    id: Seq<char>,
    now: u128,
) -> Map<Seq<char>, PeerInfoView> {
    if peers.contains_key(id) {
        peers.insert(id, PeerInfoView { last_seen: now, ..peers[id] })
    } else {
        peers
    }
}

impl View for PeerManager {
    type V = Map<Seq<char>, PeerInfoView>;

    closed spec fn view(&self) -> Map<Seq<char>, PeerInfoView> {
        Map::new(
            |id: Seq<char>| listed(self.peers@, id),
            |id: Seq<char>| self.peers@[position(self.peers@, id)]@,
        )
    }
}

impl PeerManager {
    /// No peer is held twice. It is so for a new manager, and every
    /// operation keeps it so.
    pub closed spec fn wf(&self) -> bool {
        forall|i: int, j: int|
            0 <= i < j < self.peers@.len() ==> self.peers@[i].peer_id@ != self.peers@[j].peer_id@
    }

    /// The view holds exactly the peers of the list, each with what the list
    /// knows of it.
    proof fn lemma_view(&self)
        requires
            self.wf(),
        ensures
            forall|i: int|
                0 <= i < self.peers@.len() ==> self@.contains_key(
                    (#[trigger] self.peers@[i]).peer_id@,
                ) && self@[self.peers@[i].peer_id@] == self.peers@[i]@,
            forall|id: Seq<char>| #[trigger]
                self@.contains_key(id) ==> 0 <= position(self.peers@, id) < self.peers@.len()
                    && self.peers@[position(self.peers@, id)].peer_id@ == id,
    {
        assert forall|i: int| 0 <= i < self.peers@.len() implies self@.contains_key(
            (#[trigger] self.peers@[i]).peer_id@,
        ) && self@[self.peers@[i].peer_id@] == self.peers@[i]@ by {
            let id = self.peers@[i].peer_id@;
            assert(listed(self.peers@, id));
            let at = position(self.peers@, id);
            assert(at == i) by {
                if at < i {
                    assert(self.peers@[at].peer_id@ != self.peers@[i].peer_id@);
                } else if i < at {
                    assert(self.peers@[i].peer_id@ != self.peers@[at].peer_id@);
                }
            }
        }
    }

    /// Where the peer `peer_id` stands in the list, if it is held.
    fn find(&self, peer_id: &String) -> (found: Option<usize>)
        ensures
            match found {
                Some(index) => index < self.peers@.len() && self.peers@[index as int].peer_id@
                    == peer_id@,
                None => forall|i: int|
                    0 <= i < self.peers@.len() ==> (#[trigger] self.peers@[i]).peer_id@
                        != peer_id@,
            },
    {
        let mut i: usize = 0;
        while i < self.peers.len()
            invariant
                i <= self.peers.len(),
                forall|j: int| 0 <= j < i ==> (#[trigger] self.peers@[j]).peer_id@ != peer_id@,
            decreases self.peers.len() - i,
        {
            if self.peers[i].peer_id == *peer_id {
                return Some(i);
            }
            i = i + 1;
        }
        None
    }

    /// A manager without peers.
    pub fn new() -> (manager: Self)
        ensures
            manager.wf(),
            manager@ == Map::<Seq<char>, PeerInfoView>::empty(),
    {
        let manager = PeerManager { peers: Vec::new() };
        assert(manager@ =~= Map::<Seq<char>, PeerInfoView>::empty());
        manager
    }

    /// Takes note of a peer that has connected now, under the address given,
    /// if any. What was known of the peer before is forgotten.
    pub fn add_peer(&mut self, peer_id: String, address: Option<String>)
        requires
            old(self).wf(),
        ensures
            final(self).wf(),
            final(self)@.contains_key(peer_id@),
            final(self)@ == old(self)@.insert(peer_id@, final(self)@[peer_id@]),
            final(self)@[peer_id@].peer_id == peer_id@,
            final(self)@[peer_id@].addresses == match address {
                Some(address) => seq![address@],
                None => Seq::<Seq<char>>::empty(),
            },
            final(self)@[peer_id@].connected_at == final(self)@[peer_id@].last_seen,
    {
        let now = epoch_nanos();
        self.remove_peer(&peer_id);
        let ghost without = *self;
        let mut addresses: Vec<String> = Vec::new();
        match address {
            Some(address) => {
                addresses.push(address);
            },
            None => {},
        }
        let ghost id = peer_id@;
        let info = PeerInfo { peer_id, addresses, connected_at: now, last_seen: now };
        let ghost known = info@;
        assert(known.addresses =~= match address {
            Some(address) => seq![address@],
            None => Seq::<Seq<char>>::empty(),
        });
        proof {
            without.lemma_view();
            assert(!without@.contains_key(id));
        }
        self.peers.push(info);
        proof {
            assert(self.wf()) by {
                assert forall|i: int, j: int| 0 <= i < j < self.peers@.len() implies self.peers@[i].peer_id@
                    != self.peers@[j].peer_id@ by {
                    if j == without.peers@.len() {
                        assert(without@.contains_key(without.peers@[i].peer_id@));
                    } else {
                        assert(without.peers@[i].peer_id@ != without.peers@[j].peer_id@);
                    }
                }
            }
            self.lemma_view();
            let last = without.peers@.len() as int;
            assert(self.peers@[last]@ == known);
            assert(self@.contains_key(self.peers@[last].peer_id@));
            assert forall|other: Seq<char>| self@.contains_key(other) <==> without@.contains_key(
                other,
            ) || other == id by {
                if self@.contains_key(other) {
                    let at = position(self.peers@, other);
                    if at < last {
                        assert(without.peers@[at].peer_id@ == other);
                        assert(without@.contains_key(without.peers@[at].peer_id@));
                    }
                }
                if without@.contains_key(other) {
                    let at = position(without.peers@, other);
                    assert(self.peers@[at].peer_id@ == other);
                    assert(self@.contains_key(self.peers@[at].peer_id@));
                }
            }
            assert forall|other: Seq<char>| without@.contains_key(other) implies self@[other]
                == without@[other] by {
                let at = position(without.peers@, other);
                assert(self.peers@[at] == without.peers@[at]);
                assert(self@[self.peers@[at].peer_id@] == self.peers@[at]@);
                assert(without@[without.peers@[at].peer_id@] == without.peers@[at]@);
            }
            assert(self.peers@[last].peer_id@ == id);
            assert(self@[id] == known);
            assert(without@ == old(self)@.remove(id));
            let goal = old(self)@.insert(id, known);
            assert forall|other: Seq<char>| self@.contains_key(other) == goal.contains_key(
                other,
            ) by {
                assert(self@.contains_key(other) <==> without@.contains_key(other) || other == id);
            }
            assert forall|other: Seq<char>| self@.contains_key(other) implies self@[other]
                == goal[other] by {
                if other != id {
                    assert(without@.contains_key(other));
                    assert(self@[other] == without@[other]);
                }
            }
            assert(self@ =~= goal);
        }
    }

    /// Forgets a peer. Nothing changes where the peer is not held.
    pub fn remove_peer(&mut self, peer_id: &String)
        requires
            old(self).wf(),
        ensures
            final(self).wf(),
            final(self)@ == old(self)@.remove(peer_id@),
    {
        proof {
            self.lemma_view();
        }
        match self.find(peer_id) {
            Some(index) => {
                self.peers.remove(index);
                proof {
                    let before = old(self).peers@;
                    let after = self.peers@;
                    assert(after =~= before.remove(index as int));
                    assert(self.wf()) by {
                        assert forall|i: int, j: int| 0 <= i < j < after.len() implies after[i].peer_id@
                            != after[j].peer_id@ by {
                            let a = if i < index { i } else { i + 1 };
                            let b = if j < index { j } else { j + 1 };
                            assert(after[i] == before[a] && after[j] == before[b]);
                            assert(before[a].peer_id@ != before[b].peer_id@);
                        }
                    }
                    self.lemma_view();
                    assert forall|other: Seq<char>| self@.contains_key(other) <==> old(self)@.contains_key(other) && other != peer_id@ by {
                        if self@.contains_key(other) {
                            let at = position(after, other);
                            let a = if at < index { at } else { at + 1 };
                            assert(before[a].peer_id@ == other);
                            assert(old(self)@.contains_key(before[a].peer_id@));
                            if a < index {
                                assert(before[a].peer_id@ != before[index as int].peer_id@);
                            } else {
                                assert(before[index as int].peer_id@ != before[a].peer_id@);
                            }
                        }
                        if old(self)@.contains_key(other) && other != peer_id@ {
                            let at = position(before, other);
                            let a = if at < index { at } else { at - 1 };
                            assert(after[a] == before[at]);
                            assert(self@.contains_key(after[a].peer_id@));
                        }
                    }
                    assert forall|other: Seq<char>| self@.contains_key(other) implies self@[other]
                        == old(self)@[other] by {
                        let at = position(after, other);
                        let a = if at < index { at } else { at + 1 };
                        assert(after[at] == before[a]);
                        assert(self@[after[at].peer_id@] == after[at]@);
                        assert(old(self)@[before[a].peer_id@] == before[a]@);
                    }
                    assert(self@ =~= old(self)@.remove(peer_id@));
                }
            },
            None => {
                proof {
                    if old(self)@.contains_key(peer_id@) {
                        let at = position(old(self).peers@, peer_id@);
                        assert(old(self).peers@[at].peer_id@ == peer_id@);
                    }
                    assert(self@ =~= old(self)@.remove(peer_id@));
                }
            },
        }
    }

    /// Takes note that a peer was seen now: [`PeerManager::update_last_seen_at`]
    /// at what the wall clock reads. Nothing changes, and the clock is not
    /// read, where the peer is not held.
    pub fn update_last_seen(&mut self, peer_id: &String)
        requires
            old(self).wf(),
        ensures
            final(self).wf(),
            !old(self)@.contains_key(peer_id@) ==> final(self)@ == old(self)@,
            old(self)@.contains_key(peer_id@) ==> final(self)@.contains_key(peer_id@) && final(self)@ == old(self)@.insert(
                peer_id@,
                PeerInfoView {
                    last_seen: final(self)@[peer_id@].last_seen,
                    ..old(self)@[peer_id@]
                },
            ),
    {
        match self.find(peer_id) {
            Some(_) => {
                let now = epoch_nanos();
                self.update_last_seen_at(peer_id, now);
            },
            None => {
                proof {
                    self.lemma_view();
                    if self@.contains_key(peer_id@) {
                        let at = position(self.peers@, peer_id@);
                        assert(self.peers@[at].peer_id@ == peer_id@);
                    }
                }
            },
        }
    }

    /// Takes note that a peer was seen at `now`, in nanoseconds since the
    /// Unix epoch. Nothing changes where the peer is not held.
    pub fn update_last_seen_at(&mut self, peer_id: &String, now: u128)
        requires
            old(self).wf(),
        ensures
            final(self).wf(),
            final(self)@ == seen_at(old(self)@, peer_id@, now),
    {
        proof {
            self.lemma_view();
        }
        match self.find(peer_id) {
            Some(index) => {
                let mut info = self.peers.remove(index);
                info.last_seen = now;
                let ghost seen = info@;
                self.peers.insert(index, info);
                proof {
                    let before = old(self).peers@;
                    let after = self.peers@;
                    assert(after.len() == before.len());
                    assert forall|i: int| 0 <= i < after.len() implies (#[trigger] after[i]).peer_id@
                        == before[i].peer_id@ && (i != index ==> after[i] == before[i]) by {}
                    assert(self.wf()) by {
                        assert forall|i: int, j: int| 0 <= i < j < after.len() implies after[i].peer_id@
                            != after[j].peer_id@ by {
                            assert(before[i].peer_id@ != before[j].peer_id@);
                        }
                    }
                    self.lemma_view();
                    assert(after[index as int]@ == seen);
                    assert(self@.contains_key(after[index as int].peer_id@));
                    assert(old(self)@.contains_key(before[index as int].peer_id@));
                    assert forall|other: Seq<char>| self@.contains_key(other) <==> old(self)@.contains_key(other) by {
                        if self@.contains_key(other) {
                            let at = position(after, other);
                            assert(old(self)@.contains_key(before[at].peer_id@));
                        }
                        if old(self)@.contains_key(other) {
                            let at = position(before, other);
                            assert(self@.contains_key(after[at].peer_id@));
                        }
                    }
                    assert forall|other: Seq<char>| self@.contains_key(other) && other
                        != peer_id@ implies self@[other] == old(self)@[other] by {
                        let at = position(after, other);
                        assert(after[at].peer_id@ == before[at].peer_id@);
                        assert(self@[after[at].peer_id@] == after[at]@);
                        assert(old(self)@[before[at].peer_id@] == before[at]@);
                    }
                    assert(self@ =~= old(self)@.insert(
                        peer_id@,
                        PeerInfoView { last_seen: seen.last_seen, ..old(self)@[peer_id@] },
                    ));
                }
            },
            None => {
                proof {
                    if old(self)@.contains_key(peer_id@) {
                        let at = position(old(self).peers@, peer_id@);
                        assert(old(self).peers@[at].peer_id@ == peer_id@);
                    }
                }
            },
        }
    }

    /// What is known of a peer, if it is held.
    pub fn get_peer(&self, peer_id: &String) -> (found: Option<&PeerInfo>)
        requires
            self.wf(),
        ensures
            match found {
                Some(info) => self@.contains_key(peer_id@) && info@ == self@[peer_id@],
                None => !self@.contains_key(peer_id@),
            },
    {
        proof {
            self.lemma_view();
        }
        match self.find(peer_id) {
            Some(index) => {
                assert(self@.contains_key(self.peers@[index as int].peer_id@));
                Some(&self.peers[index])
            },
            None => {
                proof {
                    if self@.contains_key(peer_id@) {
                        let at = position(self.peers@, peer_id@);
                        assert(self.peers@[at].peer_id@ == peer_id@);
                    }
                }
                None
            },
        }
    }

    /// All peers held, each once.
    pub fn get_all_peers(&self) -> (all: Vec<&PeerInfo>)
        requires
            self.wf(),
        ensures
            all@.len() == self@.dom().len(),
            forall|i: int|
                0 <= i < all@.len() ==> self@.contains_key((#[trigger] all@[i]).peer_id@)
                    && all@[i]@ == self@[all@[i].peer_id@],
            forall|i: int, j: int|
                0 <= i < j < all@.len() ==> all@[i].peer_id@ != all@[j].peer_id@,
    {
        proof {
            self.lemma_view();
            self.lemma_count();
        }
        let mut all: Vec<&PeerInfo> = Vec::new();
        let mut i: usize = 0;
        while i < self.peers.len()
            invariant
                i <= self.peers.len(),
                all@.len() == i,
                forall|j: int| 0 <= j < i ==> *(#[trigger] all@[j]) == self.peers@[j],
            decreases self.peers.len() - i,
        {
            all.push(&self.peers[i]);
            i = i + 1;
        }
        all
    }

    /// The number of peers held.
    pub fn peer_count(&self) -> (count: usize)
        requires
            self.wf(),
        ensures
            count == self@.dom().len(),
    {
        proof {
            self.lemma_count();
        }
        self.peers.len()
    }

    /// The list has as many peers as the view has keys.
    proof fn lemma_count(&self)
        requires
            self.wf(),
        ensures
            self.peers@.len() == self@.dom().len(),
    {
        self.lemma_view();
        let ids = Seq::new(self.peers@.len(), |i: int| self.peers@[i].peer_id@);
        assert(ids.no_duplicates());
        ids.unique_seq_to_set();
        assert forall|id: Seq<char>| ids.to_set().contains(id) <==> self@.dom().contains(id) by {
            if ids.contains(id) {
                let i = choose|i: int| 0 <= i < ids.len() && ids[i] == id;
                assert(self@.contains_key(self.peers@[i].peer_id@));
            }
            if self@.contains_key(id) {
                let at = position(self.peers@, id);
                assert(ids[at] == id);
            }
        }
        assert(ids.to_set() =~= self@.dom());
    }
}

impl Default for PeerManager {
    fn default() -> (manager: Self)
        ensures
            manager.wf(),
            manager@ == Map::<Seq<char>, PeerInfoView>::empty(),
    {
        PeerManager::new()
    }
}

} // verus!
