//! Channels: replicated metadata of a conversation.

use vstd::prelude::*;
use vstd::std_specs::hash::*;
use crate::collect::{lemma_take_all, lemma_take_next};
use crate::crdt::hlc::{epoch_nanos, ticked, updated, HybridLogicalClock};
use crate::crdt::lww_register::{lww_merge, LWWRegister};
use crate::crdt::or_set::{merged, with_tag, without, ORSet};
use crate::crdt::Timestamp;
use crate::ids::{ChannelId, PeerId};
use crate::outside::{hex_text, is_version_seven, uuid_simple_text};

verus! {

/// The kind of a channel.
#[derive(Debug, Clone, Copy, PartialEq, Eq, Structural)]
pub enum ChannelType {
    /// A conversation of two peers.
    PeerToPeer,
    /// A conversation of any number of peers.
    Group,
}

impl ChannelType {
    /// The word under which the kind is written down: `PeerToPeer` or
    /// `Group`.
    pub fn label(&self) -> (word: String)
        ensures
            word@ == match *self {
                ChannelType::PeerToPeer => "PeerToPeer"@,
                ChannelType::Group => "Group"@,
            },
    {
        match self {
            ChannelType::PeerToPeer => String::from_str("PeerToPeer"),
            ChannelType::Group => String::from_str("Group"),
        }
    }

    /// The kind that was written down as `word`. Any word but `PeerToPeer`
    /// is read as a group.
    pub fn from_label(word: &String) -> (kind: Self)
        ensures
            kind == if word@ == "PeerToPeer"@ {
                ChannelType::PeerToPeer
            } else {
                ChannelType::Group
            },
    {
        let peer_to_peer = String::from_str("PeerToPeer");
        if *word == peer_to_peer {
            ChannelType::PeerToPeer
        } else {
            ChannelType::Group
        }
    }
}

/// A channel's metadata, replicated without conflicts: the name is a
/// last-write-wins register, the members are an observed-remove set, and a
/// hybrid logical clock stamps the changes made here.
#[derive(Debug)]
pub struct Channel {
    pub id: ChannelId,
    pub name: LWWRegister<String>,
    pub channel_type: ChannelType,
    /// The members, by the number of their identifiers.
    pub members: ORSet<u128>,
    /// When the channel was made, in nanoseconds since the Unix epoch.
    pub created_at: u128,
    pub hlc: HybridLogicalClock,
}

/// A channel as a mathematical value.
pub struct ChannelView {
    pub id: ChannelId,
    /// The name, with the timestamp of its writing.
    pub name: (Seq<char>, Timestamp),
    pub channel_type: ChannelType,
    /// The members, each with the tags of its adds.
    pub members: Map<u128, Set<u128>>,
    pub created_at: u128,
    /// The peer of the channel's clock.
    pub clock_peer: PeerId,
    /// The last timestamp that the channel's clock has emitted.
    pub clock_latest: Timestamp,
}

impl View for Channel {
    type V = ChannelView;

    open spec fn view(&self) -> ChannelView {
        ChannelView {
            id: self.id,
            name: (self.name@.0@, self.name@.1),
            channel_type: self.channel_type,
            members: self.members@,
            created_at: self.created_at,
            clock_peer: self.hlc.peer(),
            clock_latest: self.hlc.latest(),
        }
    }
}

/// The channels of `list` as mathematical values.
pub open spec fn channel_views(list: Seq<Channel>) -> Seq<ChannelView> {
    Seq::new(list.len(), |i: int| list[i]@)
}

/// The timestamp of a clock of `peer` that was started and has ticked once:
/// what the first name of a channel is written under. It carries the peer,
/// its logical counter is at most one, and it is not the least timestamp.
pub open spec fn first_stamp(peer: PeerId, stamp: Timestamp) -> bool {
    exists|start: u64, now: u64| #[trigger]
        ticked(peer, Timestamp { physical: start, logical: 0, peer_id: peer }, now) == stamp
}

/// The first stamp of a clock carries the clock's peer, has a logical
/// counter of at most one, and comes after the least timestamp of any peer.
pub proof fn lemma_first_stamp(peer: PeerId, stamp: Timestamp, other: PeerId)
    requires
        first_stamp(peer, stamp),
    ensures
        stamp.peer_id == peer,
        stamp.logical <= 1,
        stamp.physical > 0 || stamp.logical > 0,
        (Timestamp { physical: 0, logical: 0, peer_id: other }).precedes(stamp),
{
}

/// The observable state of `here` after it has merged `there`: its name is
/// the later-written of the two, its members carry the tags of both.
pub open spec fn merged_name(here: ChannelView, there: ChannelView) -> (Seq<char>, Timestamp) {
    lww_merge(here.name, there.name)
}

/// The members of a channel after it has merged another.
pub open spec fn merged_members(here: ChannelView, there: ChannelView) -> Map<u128, Set<u128>> {
    merged(here.members, there.members)
}

impl Channel {
    /// A new group channel named `name`, with `creator` as its only member.
    pub fn new(name: String, creator: PeerId) -> (channel: Self)
        ensures
            is_version_seven(channel@.id.0),
            channel@.name.0 == name@,
            channel@.channel_type == ChannelType::Group,
            channel@.members.dom() == set![creator.0],
            channel@.clock_peer == creator,
            channel@.name.1 == channel@.clock_latest,
            first_stamp(creator, channel@.clock_latest),
            channel@.clock_latest.peer_id == channel@.clock_peer,
            channel@.clock_latest.logical <= 1,
            channel@.clock_latest.physical > 0 || channel@.clock_latest.logical > 0,
    {
        let mut hlc = HybridLogicalClock::new(creator);
        let ghost started = hlc.latest();
        let timestamp = hlc.tick();
        proof {
            let now = choose|now: u64| timestamp == ticked(creator, started, now);
            assert(ticked(
                creator,
                Timestamp { physical: started.physical, logical: 0, peer_id: creator },
                now,
            ) == timestamp);
        }
        let mut members: ORSet<u128> = ORSet::new();
        members.add(creator.0);
        assert(members@.dom() =~= set![creator.0]);
        Channel {
            id: ChannelId::new(),
            name: LWWRegister::new(name, timestamp),
            channel_type: ChannelType::Group,
            members,
            created_at: epoch_nanos(),
            hlc,
        }
    }

    /// A new channel for the conversation of `peer1`, who makes it, with
    /// `peer2`. Both are members. The name is `@` and the thirty-two
    /// hexadecimal digits of `peer2`'s identifier.
    pub fn new_peer_to_peer(peer1: PeerId, peer2: PeerId) -> (channel: Self)
        ensures
            is_version_seven(channel@.id.0),
            channel@.name.0 == seq!['@'] + hex_text(peer2.0 as nat, 32),
            channel@.channel_type == ChannelType::PeerToPeer,
            channel@.members.dom() == set![peer1.0, peer2.0],
            channel@.clock_peer == peer1,
            channel@.name.1 == channel@.clock_latest,
            first_stamp(peer1, channel@.clock_latest),
            channel@.clock_latest.peer_id == channel@.clock_peer,
            channel@.clock_latest.logical <= 1,
            channel@.clock_latest.physical > 0 || channel@.clock_latest.logical > 0,
    {
        let digits = uuid_simple_text(peer2.0);
        let mut name = String::from_str("@");
        name.append(digits.as_str());
        proof {
            reveal_strlit("@");
            assert(name@ =~= seq!['@'] + hex_text(peer2.0 as nat, 32));
        }
        let mut hlc = HybridLogicalClock::new(peer1);
        let ghost started = hlc.latest();
        let timestamp = hlc.tick();
        proof {
            let now = choose|now: u64| timestamp == ticked(peer1, started, now);
            assert(ticked(
                peer1,
                Timestamp { physical: started.physical, logical: 0, peer_id: peer1 },
                now,
            ) == timestamp);
        }
        let mut members: ORSet<u128> = ORSet::new();
        members.add(peer1.0);
        members.add(peer2.0);
        assert(members@.dom() =~= set![peer1.0, peer2.0]);
        Channel {
            id: ChannelId::new(),
            name: LWWRegister::new(name, timestamp),
            channel_type: ChannelType::PeerToPeer,
            members,
            created_at: epoch_nanos(),
            hlc,
        }
    }

    /// A channel known only by reference: the group channel `id` under the
    /// provisional `name`, without members, with the clock of `creator`.
    ///
    /// The provisional name is written under the least timestamp of
    /// `creator`, so that every name written in earnest comes after it and
    /// replaces it on a merge.
    pub fn placeholder(id: ChannelId, name: String, creator: PeerId) -> (channel: Self)
        ensures
            channel@.id == id,
            channel@.name == (name@, Timestamp { physical: 0, logical: 0, peer_id: creator }),
            channel@.channel_type == ChannelType::Group,
            channel@.members == Map::<u128, Set<u128>>::empty(),
            channel@.clock_peer == creator,
            channel@.clock_latest.logical == 0,
            channel@.clock_latest.peer_id == creator,
    {
        let hlc = HybridLogicalClock::new(creator);
        Channel {
            id,
            name: LWWRegister::new(name, Timestamp::new(0, 0, creator)),
            channel_type: ChannelType::Group,
            members: ORSet::new(),
            created_at: epoch_nanos(),
            hlc,
        }
    }

    /// A channel rebuilt from a record that kept only what is seen of it:
    /// its name, kind, time of making and members. Every member gets a tag
    /// made now; the clock is that of the first member, or of a peer made
    /// up for it where there is none.
    pub fn rebuilt(
        id: ChannelId,
        name: String,
        channel_type: ChannelType,
        created_at: u128,
        members: &Vec<PeerId>,
    ) -> (channel: Self)
        ensures
            channel@.id == id,
            channel@.name.0 == name@,
            channel@.channel_type == channel_type,
            channel@.created_at == created_at,
            forall|peer: PeerId| channel@.members.contains_key(peer.0) <==> members@.contains(peer),
            members@.len() > 0 ==> channel@.clock_peer == members@[0],
            channel@.name.1 == channel@.clock_latest,
            first_stamp(channel@.clock_peer, channel@.clock_latest),
            channel@.clock_latest.peer_id == channel@.clock_peer,
            channel@.clock_latest.logical <= 1,
            channel@.clock_latest.physical > 0 || channel@.clock_latest.logical > 0,
    {
        broadcast use group_hash_axioms;
        let creator = if members.len() > 0 {
            members[0]
        } else {
            PeerId::new()
        };
        let mut hlc = HybridLogicalClock::new(creator);
        let ghost started = hlc.latest();
        let timestamp = hlc.tick();
        proof {
            let now = choose|now: u64| timestamp == ticked(creator, started, now);
            assert(ticked(
                creator,
                Timestamp { physical: started.physical, logical: 0, peer_id: creator },
                now,
            ) == timestamp);
        }
        let mut channel = Channel {
            id,
            name: LWWRegister::new(name, timestamp),
            channel_type,
            members: ORSet::new(),
            created_at,
            hlc,
        };
        let mut i: usize = 0;
        while i < members.len()
            invariant
                i <= members.len(),
                channel@.id == id,
                channel@.name.0 == name@,
                channel@.channel_type == channel_type,
                channel@.created_at == created_at,
                channel@.clock_peer == creator,
                channel@.name.1 == channel@.clock_latest,
                first_stamp(creator, channel@.clock_latest),
                channel@.clock_latest.peer_id == creator,
                channel@.clock_latest.logical <= 1,
                channel@.clock_latest.physical > 0 || channel@.clock_latest.logical > 0,
                forall|peer: PeerId|
                    channel@.members.contains_key(peer.0) <==> members@.take(i as int).contains(
                        peer,
                    ),
            decreases members.len() - i,
        {
            let ghost before = channel@.members;
            proof {
                lemma_take_next(members@, i as int);
            }
            channel.add_member(members[i]);
            proof {
                assert forall|peer: PeerId|
                    channel@.members.contains_key(peer.0) <==> members@.take(i + 1).contains(
                        peer,
                    ) by {
                    assert(before.contains_key(peer.0) <==> members@.take(i as int).contains(peer));
                    if peer.0 == members@[i as int].0 {
                        assert(peer == members@[i as int]);
                    }
                }
            }
            i = i + 1;
        }
        proof {
            lemma_take_all(members@);
        }
        channel
    }

    /// The channel's name.
    pub fn get_name(&self) -> (name: &String)
        ensures
            name@ == self@.name.0,
    {
        self.name.value()
    }

    /// Renames the channel, under a timestamp that the channel's clock makes
    /// for it. The new name stays unless the name held was written later.
    pub fn set_name(&mut self, new_name: String)
        requires
            old(self)@.clock_latest.logical < u64::MAX,
        ensures
            old(self)@.clock_latest.precedes(final(self)@.clock_latest),
            final(self)@.name == lww_merge(
                old(self)@.name,
                (new_name@, final(self)@.clock_latest),
            ),
            final(self)@ == (ChannelView {
                name: final(self)@.name,
                clock_latest: final(self)@.clock_latest,
                ..old(self)@
            }),
    {
        let timestamp = self.hlc.tick();
        self.name.set(new_name, timestamp);
    }

    /// Adds `peer_id` to the members and returns the tag of this add.
    pub fn add_member(&mut self, peer_id: PeerId) -> (tag: u128)
        ensures
            is_version_seven(tag),
            final(self)@ == (ChannelView {
                members: with_tag(old(self)@.members, peer_id.0, tag),
                ..old(self)@
            }),
            final(self)@.members.contains_key(peer_id.0),
    {
        broadcast use group_hash_axioms;
        self.members.add(peer_id.0)
    }

    /// Removes `peer_id` from the members: every add of it seen here is
    /// undone.
    pub fn remove_member(&mut self, peer_id: &PeerId)
        ensures
            final(self)@ == (ChannelView {
                members: without(old(self)@.members, peer_id.0),
                ..old(self)@
            }),
            !final(self)@.members.contains_key(peer_id.0),
    {
        broadcast use group_hash_axioms;
        self.members.remove(&peer_id.0);
    }

    /// The members, each once, in no particular order.
    pub fn get_members(&self) -> (members: Vec<PeerId>)
        ensures
            members@.no_duplicates(),
            forall|peer: PeerId| members@.contains(peer) <==> self@.members.contains_key(peer.0),
    {
        broadcast use group_hash_axioms;
        let numbers = self.members.elements();
        let mut members: Vec<PeerId> = Vec::new();
        let mut i: usize = 0;
        while i < numbers.len()
            invariant
                i <= numbers.len(),
                members@.len() == i,
                forall|j: int| 0 <= j < i ==> (#[trigger] members@[j]).0 == numbers@[j],
            decreases numbers.len() - i,
        {
            members.push(PeerId(numbers[i]));
            i = i + 1;
        }
        proof {
            assert forall|peer: PeerId| members@.contains(peer) <==> self@.members.contains_key(
                peer.0,
            ) by {
                if members@.contains(peer) {
                    let j = choose|j: int| 0 <= j < members@.len() && members@[j] == peer;
                    assert(numbers@[j] == peer.0);
                    assert(numbers@.to_set().contains(peer.0));
                }
                if self@.members.contains_key(peer.0) {
                    assert(numbers@.to_set().contains(peer.0));
                    let j = choose|j: int| 0 <= j < numbers@.len() && numbers@[j] == peer.0;
                    assert(members@[j].0 == peer.0);
                    assert(members@[j] == peer);
                }
            }
        }
        members
    }

    /// Merges another replica of the channel into this one: the name merges
    /// as a last-write-wins register, the members as an observed-remove set,
    /// and the clock moves past the other's.
    pub fn merge(&mut self, other: &Channel)
        requires
            old(self)@.clock_latest.logical < u64::MAX,
            other@.clock_latest.logical < u64::MAX,
        ensures
            final(self)@.name == merged_name(old(self)@, other@),
            final(self)@.members == merged_members(old(self)@, other@),
            old(self)@.clock_latest.precedes(final(self)@.clock_latest),
            other@.clock_latest.precedes(final(self)@.clock_latest),
            exists|now: u64|
                final(self)@.clock_latest == updated(
                    old(self)@.clock_peer,
                    old(self)@.clock_latest,
                    other@.clock_latest,
                    now,
                ),
            final(self)@ == (ChannelView {
                name: final(self)@.name,
                members: final(self)@.members,
                clock_latest: final(self)@.clock_latest,
                ..old(self)@
            }),
    {
        broadcast use group_hash_axioms;
        self.name.merge(&other.name);
        self.members.merge(&other.members);
        let remote = other.hlc.latest();
        self.hlc.update(remote);
    }
}

impl Clone for Channel {
    fn clone(&self) -> (copy: Self)
        ensures
            copy@ == self@,
    {
        Channel {
            id: self.id,
            name: self.name.clone(),
            channel_type: self.channel_type,
            members: self.members.clone(),
            created_at: self.created_at,
            hlc: self.hlc,
        }
    }
}

/// Two replicas of a channel that merge each other hold the same name and
/// the same members afterwards, unless they hold two different names
/// written under one timestamp: the name is the one written under the
/// greater timestamp, and the members are those of either.
pub proof fn lemma_mutual_merge_converges(a: ChannelView, b: ChannelView)
    requires
        a.name.1 == b.name.1 ==> a.name.0 == b.name.0,
    ensures
        merged_name(a, b) == merged_name(b, a),
        merged_name(a, b) == if a.name.1.precedes(b.name.1) {
            b.name
        } else {
            a.name
        },
        merged_members(a, b) == merged_members(b, a),
        merged_members(a, b).dom() == a.members.dom().union(b.members.dom()),
{
    crate::setmap::lemma_united_commutative(a.members, b.members);
    assert(merged_members(a, b).dom() =~= a.members.dom().union(b.members.dom()));
}

/// A replica that merges the states of two others ends with the same name
/// and the same members whichever it merges first, unless the two hold
/// different names written under one timestamp.
pub proof fn lemma_merge_order_is_immaterial(here: ChannelView, first: ChannelView, second: ChannelView)
    requires
        first.name.1 == second.name.1 ==> first.name.0 == second.name.0,
    ensures
        lww_merge(lww_merge(here.name, first.name), second.name) == lww_merge(
            lww_merge(here.name, second.name),
            first.name,
        ),
        merged(merged(here.members, first.members), second.members) == merged(
            merged(here.members, second.members),
            first.members,
        ),
{
    crate::setmap::lemma_united_associative(here.members, first.members, second.members);
    crate::setmap::lemma_united_associative(here.members, second.members, first.members);
    crate::setmap::lemma_united_commutative(first.members, second.members);
}

/// A state that is merged a second time changes nothing: a frame that
/// carries a channel may be replayed.
pub proof fn lemma_merge_again_changes_nothing(here: ChannelView, there: ChannelView)
    ensures
        lww_merge(lww_merge(here.name, there.name), there.name) == lww_merge(
            here.name,
            there.name,
        ),
        merged(merged(here.members, there.members), there.members) == merged(
            here.members,
            there.members,
        ),
{
    crate::setmap::lemma_united_associative(here.members, there.members, there.members);
    crate::setmap::lemma_united_idempotent(there.members);
}

/// A placeholder gives way to the channel's real state: merged with a state
/// whose name was written under any timestamp but the least, a channel that
/// holds a provisional name and no member ends with the name and the
/// members of that state. The first name of every channel is written under
/// such a timestamp.
pub proof fn lemma_placeholder_gives_way(placeholder: ChannelView, announced: ChannelView)
    requires
        placeholder.name.1.physical == 0,
        placeholder.name.1.logical == 0,
        placeholder.members == Map::<u128, Set<u128>>::empty(),
        announced.name.1.physical > 0 || announced.name.1.logical > 0,
    ensures
        merged_name(placeholder, announced) == announced.name,
        merged_members(placeholder, announced) == announced.members,
{
    assert forall|member: u128| #[trigger]
        announced.members.contains_key(member) implies merged_members(
        placeholder,
        announced,
    )[member] == announced.members[member] by {
        assert(Set::<u128>::empty().union(announced.members[member])
            =~= announced.members[member]);
    }
    assert(merged_members(placeholder, announced) =~= announced.members);
}

/// The channel that a placeholder stands for wins over it: a channel that
/// holds a provisional name under the least timestamp and no member, merged
/// with a channel whose name stands under the first stamp of its maker's
/// clock, ends with that channel's name and members.
pub proof fn lemma_placeholder_resolves(placeholder: ChannelView, announced: ChannelView, maker: PeerId)
    requires
        placeholder.name.1.physical == 0,
        placeholder.name.1.logical == 0,
        placeholder.members == Map::<u128, Set<u128>>::empty(),
        first_stamp(maker, announced.name.1),
    ensures
        merged_name(placeholder, announced) == announced.name,
        merged_members(placeholder, announced) == announced.members,
{
    lemma_first_stamp(maker, announced.name.1, placeholder.name.1.peer_id);
    lemma_placeholder_gives_way(placeholder, announced);
}

} // verus!
