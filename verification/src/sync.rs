//! The sync engine: what a replica does on each event.
//!
//! A replica holds the channels it knows, the message graph, the messages
//! that wait for a parent before the graph can admit them, and the clocks
//! that stamp its own messages. The functions here take an event and what
//! the repository has answered, change the replica, and say which command to
//! give to the transport. To persist and to send is the caller's part.

use vstd::prelude::*;
use vstd::std_specs::hash::*;
use crate::channel::{channel_views, merged_members, merged_name, Channel, ChannelType, ChannelView};
use crate::collect::lemma_take_all;
use crate::crdt::Timestamp;
use crate::dag::gossip::{ascending, is_waiting, wanted, GossipManager};
use crate::dag::load::loaded;
use crate::dag::{
    admitted, first_missing_parent, heads_are_sinks, id_numbers, parents_present,
    DagError, DagView, MessageDAG,
};
use crate::ids::{ChannelId, MessageId, PeerId};
use crate::message::{views, Message, MessageContent, MessageView};
use crate::network::{NetworkCommand, NetworkCommandView};
use crate::outside::{hex_text, is_version_seven, lemma_hex_text_len, uuid_simple_text};
use crate::setmap::items_at;
use crate::vector_clock::{counter, joined, VectorClock};

verus! {

/// The replica of one peer.
pub struct Replica {
    peer_id: PeerId,
    channels: Vec<Channel>,
    dag: MessageDAG,
    lamport_clock: u64,
    vector_clock: VectorClock,
    /// The messages that were refused for a missing parent and wait for it.
    waiting: Vec<Message>,
    gossip: GossipManager,
}

/// A replica as a mathematical value.
pub struct ReplicaView {
    pub peer_id: PeerId,
    pub channels: Seq<ChannelView>,
    pub dag: DagView,
    pub lamport_clock: u64,
    pub vector_clock: Map<u128, u64>,
    /// The messages that wait for a parent, in the order in which they came.
    pub waiting: Seq<MessageView>,
}

/// What became of a message that the replica was given.
#[derive(Debug, Clone, Copy, PartialEq, Eq, Structural)]
pub enum Admission {
    /// The graph has admitted the message.
    Admitted,
    /// The replica held the message already, in the graph or waiting.
    Held,
    /// The graph lacks a parent of the message; the replica keeps the
    /// message waiting and admits it once its parents are admitted.
    Waiting { missing_parent: MessageId },
    /// The message carries a clock that cannot be moved past; the frame is
    /// dropped and nothing has changed.
    Discarded,
}

/// What became of a channel state that the replica was given.
#[derive(Debug, Clone, Copy, PartialEq, Eq, Structural)]
pub enum ChannelChange {
    /// The state was merged into the channel at this index.
    Merged(usize),
    /// The channel was not known; it stands now at this index.
    Added(usize),
    /// One of the two clocks cannot be moved past; the frame is dropped and
    /// nothing has changed.
    Discarded,
}

/// The first channel of `channels` with the identifier `id` stands at
/// `index`.
pub open spec fn first_with_id(channels: Seq<ChannelView>, id: ChannelId, index: int) -> bool {
    &&& 0 <= index < channels.len()
    &&& channels[index].id == id
    &&& forall|j: int| 0 <= j < index ==> (#[trigger] channels[j]).id != id
}

/// No channel of `channels` has the identifier `id`.
pub open spec fn unknown(channels: Seq<ChannelView>, id: ChannelId) -> bool {
    forall|j: int| 0 <= j < channels.len() ==> (#[trigger] channels[j]).id != id
}

/// What is held after a message that waited is tried again. Of what is
/// held, the first part is the graph, the second the messages that wait. The
/// message is let go if the graph holds it by now, admitted if the graph
/// holds all its parents, and goes on waiting else.
pub open spec fn retried(held: (DagView, Seq<MessageView>), message: MessageView) -> (
    DagView,
    Seq<MessageView>,
) {
    if held.0.messages.contains_key(message.id.0) {
        held
    } else if parents_present(held.0.messages, message) {
        (admitted(held.0, message), held.1)
    } else {
        (held.0, held.1.push(message))
    }
}

/// What is held after each of `waiting` has been tried again, in turn.
pub open spec fn one_round(dag: DagView, waiting: Seq<MessageView>) -> (DagView, Seq<MessageView>)
    decreases waiting.len(),
{
    if waiting.len() == 0 {
        (dag, Seq::empty())
    } else {
        retried(one_round(dag, waiting.drop_last()), waiting.last())
    }
}

/// What is held once nothing that waits can be admitted: the messages that
/// wait are tried again, round after round, for as long as a round lets
/// fewer of them wait.
pub open spec fn settled(dag: DagView, waiting: Seq<MessageView>) -> (DagView, Seq<MessageView>)
    decreases waiting.len(),
{
    let next = one_round(dag, waiting);
    if next.1.len() < waiting.len() {
        settled(next.0, next.1)
    } else {
        next
    }
}

/// What is held after `message` has been taken in. Nothing changes if it is
/// held already, in the graph or waiting. If the graph holds all its
/// parents it is admitted, and what waits is tried again. Else it waits.
pub open spec fn taken(dag: DagView, waiting: Seq<MessageView>, message: MessageView) -> (
    DagView,
    Seq<MessageView>,
) {
    if dag.messages.contains_key(message.id.0) || is_waiting(waiting, message.id.0) {
        (dag, waiting)
    } else if parents_present(dag.messages, message) {
        settled(admitted(dag, message), waiting)
    } else {
        (dag, waiting.push(message))
    }
}

/// What is held after each of `messages` has been taken in, in turn.
pub open spec fn taken_all(
    dag: DagView,
    waiting: Seq<MessageView>,
    messages: Seq<MessageView>,
) -> (DagView, Seq<MessageView>)
    decreases messages.len(),
{
    if messages.len() == 0 {
        (dag, waiting)
    } else {
        let before = taken_all(dag, waiting, messages.drop_last());
        taken(before.0, before.1, messages.last())
    }
}

/// `outcome` is what becomes of `message` when it is taken in.
pub open spec fn taking(
    dag: DagView,
    waiting: Seq<MessageView>,
    message: MessageView,
    outcome: Admission,
) -> bool {
    let held = dag.messages.contains_key(message.id.0) || is_waiting(waiting, message.id.0);
    match outcome {
        Admission::Admitted => !held && parents_present(dag.messages, message),
        Admission::Held => held,
        Admission::Waiting { missing_parent } => !held && exists|index: int|
            first_missing_parent(dag.messages, message, index) && missing_parent
                == message.parent_hashes[index],
        Admission::Discarded => true,
    }
}

/// The greater of two counters.
pub open spec fn greater(a: u64, b: u64) -> u64 {
    if a >= b {
        a
    } else {
        b
    }
}

/// The name under which a channel is kept that is known only from a message:
/// `channel-` and the first eight hexadecimal digits of its identifier.
pub open spec fn provisional_name(id: ChannelId) -> Seq<char> {
    "channel-"@ + hex_text(id.0 as nat, 32).subrange(0, 8)
}

/// The name under which a channel is kept that is known only from a
/// message.
pub fn placeholder_name(id: ChannelId) -> (name: String)
    ensures
        name@ == provisional_name(id),
{
    let digits = uuid_simple_text(id.0);
    proof {
        lemma_hex_text_len(id.0 as nat, 32);
    }
    let prefix = digits.as_str().substring_char(0, 8);
    let mut name = String::from_str("channel-");
    name.append(prefix);
    name
}

impl View for Replica {
    type V = ReplicaView;

    closed spec fn view(&self) -> ReplicaView {
        ReplicaView {
            peer_id: self.peer_id,
            channels: channel_views(self.channels@),
            dag: self.dag@,
            lamport_clock: self.lamport_clock,
            vector_clock: self.vector_clock@,
            waiting: views(self.waiting@),
        }
    }
}

impl Replica {
    /// The replica of `peer_id` at its start: no channel, no message, a
    /// Lamport counter of zero, and a vector clock that has counted the
    /// start as the peer's first event.
    pub fn new(peer_id: PeerId) -> (replica: Self)
        ensures
            replica@.peer_id == peer_id,
            replica@.channels == Seq::<ChannelView>::empty(),
            replica@.dag.messages == Map::<u128, MessageView>::empty(),
            replica@.dag.children == Map::<u128, Set<u128>>::empty(),
            replica@.dag.heads == Map::<u128, Set<u128>>::empty(),
            replica@.lamport_clock == 0,
            replica@.vector_clock == Map::<u128, u64>::empty().insert(peer_id.0, 1),
            replica@.waiting == Seq::<MessageView>::empty(),
    {
        let mut vector_clock = VectorClock::new();
        vector_clock.increment(peer_id);
        let replica = Replica {
            peer_id,
            channels: Vec::new(),
            dag: MessageDAG::new(),
            lamport_clock: 0,
            vector_clock,
            waiting: Vec::new(),
            gossip: GossipManager::new(),
        };
        assert(replica@.channels =~= Seq::<ChannelView>::empty());
        assert(replica@.waiting =~= Seq::<MessageView>::empty());
        replica
    }

    /// The replica of `peer_id` with the clocks that it had written down:
    /// no channel and no message yet, and the counters where they stood, so
    /// that they go on from there.
    pub fn restore(peer_id: PeerId, lamport_clock: u64, vector_clock: VectorClock) -> (replica: Self)
        ensures
            replica@.peer_id == peer_id,
            replica@.channels == Seq::<ChannelView>::empty(),
            replica@.dag.messages == Map::<u128, MessageView>::empty(),
            replica@.dag.children == Map::<u128, Set<u128>>::empty(),
            replica@.dag.heads == Map::<u128, Set<u128>>::empty(),
            replica@.lamport_clock == lamport_clock,
            replica@.vector_clock == vector_clock@,
            replica@.waiting == Seq::<MessageView>::empty(),
    {
        let replica = Replica {
            peer_id,
            channels: Vec::new(),
            dag: MessageDAG::new(),
            lamport_clock,
            vector_clock,
            waiting: Vec::new(),
            gossip: GossipManager::new(),
        };
        assert(replica@.channels =~= Seq::<ChannelView>::empty());
        assert(replica@.waiting =~= Seq::<MessageView>::empty());
        replica
    }

    /// The peer whose replica this is.
    pub fn peer_id(&self) -> (peer_id: PeerId)
        ensures
            peer_id == self@.peer_id,
    {
        self.peer_id
    }

    /// The channels known, in the order in which they were recorded.
    pub fn channels(&self) -> (channels: &Vec<Channel>)
        ensures
            channel_views(channels@) == self@.channels,
    {
        &self.channels
    }

    /// The message graph.
    pub fn dag(&self) -> (dag: &MessageDAG)
        ensures
            dag@ == self@.dag,
    {
        &self.dag
    }

    /// The Lamport counter: that of the last message written or received.
    pub fn lamport_clock(&self) -> (counter: u64)
        ensures
            counter == self@.lamport_clock,
    {
        self.lamport_clock
    }

    /// The vector clock.
    pub fn vector_clock(&self) -> (clock: &VectorClock)
        ensures
            clock@ == self@.vector_clock,
    {
        &self.vector_clock
    }

    /// The messages that were refused for a missing parent and wait for it,
    /// in the order in which they came.
    pub fn waiting(&self) -> (waiting: &Vec<Message>)
        ensures
            views(waiting@) == self@.waiting,
    {
        &self.waiting
    }

    /// Whether the replica holds the message `id`, in the graph or waiting.
    pub fn holds(&self, id: &MessageId) -> (held: bool)
        ensures
            held == (self@.dag.messages.contains_key(id.0) || is_waiting(self@.waiting, id.0)),
    {
        if self.dag.has_message(id) {
            return true;
        }
        let mut i: usize = 0;
        while i < self.waiting.len()
            invariant
                i <= self.waiting.len(),
                forall|k: int| 0 <= k < i ==> (#[trigger] self@.waiting[k]).id.0 != id.0,
            decreases self.waiting.len() - i,
        {
            if self.waiting[i].id.0 == id.0 {
                assert(self@.waiting[i as int].id.0 == id.0);
                return true;
            }
            i = i + 1;
        }
        false
    }

    /// Takes `channels` as the channels known, in place of those known
    /// before: as after the repository has been read.
    pub fn set_channels(&mut self, channels: Vec<Channel>)
        ensures
            final(self)@ == (ReplicaView { channels: channel_views(channels@), ..old(self)@ }),
    {
        self.channels = channels;
    }

    /// Loads messages read from the repository into the graph, in bulk.
    pub fn load_messages(&mut self, messages: Vec<Message>)
        ensures
            final(self)@ == (ReplicaView {
                dag: loaded(old(self)@.dag, views(messages@)),
                ..old(self)@
            }),
    {
        let _ = self.dag.load_messages(messages);
    }

    /// Where the channel `id` stands among the channels known: the index of
    /// the first one with that identifier.
    pub fn find_channel(&self, id: ChannelId) -> (found: Option<usize>)
        ensures
            match found {
                Some(index) => first_with_id(self@.channels, id, index as int),
                None => unknown(self@.channels, id),
            },
    {
        let mut i: usize = 0;
        while i < self.channels.len()
            invariant
                i <= self.channels.len(),
                forall|j: int| 0 <= j < i ==> (#[trigger] self@.channels[j]).id != id,
            decreases self.channels.len() - i,
        {
            if self.channels[i].id.0 == id.0 {
                assert(self@.channels[i as int].id == id);
                return Some(i);
            }
            i = i + 1;
        }
        None
    }

    /// On a peer's connecting: the commands that ask for an inventory of
    /// every channel known, in the order of the channels.
    pub fn on_peer_connected(&self) -> (commands: Vec<NetworkCommand>)
        ensures
            commands@.len() == self@.channels.len(),
            forall|i: int|
                0 <= i < commands@.len() ==> (#[trigger] commands@[i])@
                    == (NetworkCommandView::RequestInventory { channel_id: self@.channels[i].id }),
    {
        let mut commands: Vec<NetworkCommand> = Vec::new();
        let mut i: usize = 0;
        while i < self.channels.len()
            invariant
                i <= self.channels.len(),
                commands@.len() == i,
                forall|j: int|
                    0 <= j < i ==> (#[trigger] commands@[j])@
                        == (NetworkCommandView::RequestInventory {
                        channel_id: self@.channels[j].id,
                    }),
            decreases self.channels.len() - i,
        {
            commands.push(self.gossip.request_inventory(self.channels[i].id));
            i = i + 1;
        }
        commands
    }

    /// The placeholder to record for a message whose channel is not known:
    /// a group channel with the message's channel identifier, the
    /// provisional name under the least timestamp, no member, and the clock
    /// of the message's author. None where the channel is known.
    pub fn placeholder_for(&self, message: &Message) -> (placeholder: Option<Channel>)
        ensures
            match placeholder {
                Some(channel) => {
                    &&& unknown(self@.channels, message.channel_id)
                    &&& channel@.id == message.channel_id
                    &&& channel@.name == (
                        provisional_name(message.channel_id),
                        Timestamp { physical: 0, logical: 0, peer_id: message.author },
                    )
                    &&& channel@.channel_type == ChannelType::Group
                    &&& channel@.members == Map::<u128, Set<u128>>::empty()
                    &&& channel@.clock_peer == message.author
                },
                None => exists|index: int|
                    first_with_id(self@.channels, message.channel_id, index),
            },
    {
        match self.find_channel(message.channel_id) {
            Some(_) => None,
            None => Some(
                Channel::placeholder(
                    message.channel_id,
                    placeholder_name(message.channel_id),
                    message.author,
                ),
            ),
        }
    }

    /// Records `channel` behind the channels known.
    pub fn add_channel(&mut self, channel: Channel)
        ensures
            final(self)@ == (ReplicaView {
                channels: old(self)@.channels.push(channel@),
                ..old(self)@
            }),
    {
        self.channels.push(channel);
        assert(self@.channels =~= old(self)@.channels.push(channel@));
    }

    /// Tries again a message that waited.
    fn retry(&mut self, message: Message)
        ensures
            final(self)@ == (ReplicaView {
                dag: retried((old(self)@.dag, old(self)@.waiting), message@).0,
                waiting: retried((old(self)@.dag, old(self)@.waiting), message@).1,
                ..old(self)@
            }),
    {
        if self.dag.has_message(&message.id) {
            return ;
        }
        match self.dag.first_missing(&message) {
            None => {
                let ghost given = message@;
                let admission = self.dag.add_message(message);
                proof {
                    if let Err(DagError::MissingParent { message_id, missing_parent }) = admission {
                        let index = choose|index: int|
                            first_missing_parent(old(self)@.dag.messages, given, index)
                                && missing_parent == given.parent_hashes[index];
                        assert(old(self)@.dag.messages.contains_key(given.parent_hashes[index].0));
                    }
                }
            },
            Some(_) => {
                let ghost given = message@;
                proof {
                    let index = choose|index: int|
                        first_missing_parent(self@.dag.messages, given, index);
                    assert(!self@.dag.messages.contains_key(given.parent_hashes[index].0));
                }
                self.waiting.push(message);
                assert(self@.waiting =~= old(self)@.waiting.push(given));
            },
        }
    }

    /// Admits what waits and can be admitted: the messages that wait are
    /// tried again, round after round, for as long as a round lets fewer of
    /// them wait.
    fn settle(&mut self)
        ensures
            final(self)@ == (ReplicaView {
                dag: settled(old(self)@.dag, old(self)@.waiting).0,
                waiting: settled(old(self)@.dag, old(self)@.waiting).1,
                ..old(self)@
            }),
    {
        let mut moving = true;
        while moving
            invariant
                self@ == (ReplicaView { dag: self@.dag, waiting: self@.waiting, ..old(self)@ }),
                moving ==> settled(self@.dag, self@.waiting) == settled(
                    old(self)@.dag,
                    old(self)@.waiting,
                ),
                !moving ==> (self@.dag, self@.waiting) == settled(
                    old(self)@.dag,
                    old(self)@.waiting,
                ),
            decreases self.waiting.len() + if moving { 1nat } else { 0nat },
        {
            let before = self.waiting.len();
            let ghost start = self@;
            let mut round: Vec<Message> = Vec::new();
            std::mem::swap(&mut round, &mut self.waiting);
            let ghost tried = views(round@);
            assert(tried == start.waiting);
            assert(self@.waiting =~= Seq::<MessageView>::empty());
            assert(one_round(start.dag, tried.take(0)) == (start.dag, Seq::<MessageView>::empty()));
            for message in walk: round.into_iter()
                invariant
                    walk.seq() == round@,
                    tried == views(round@),
                    self@ == (ReplicaView { dag: self@.dag, waiting: self@.waiting, ..start }),
                    (self@.dag, self@.waiting) == one_round(start.dag, tried.take(walk.index())),
                    self@.waiting.len() <= walk.index(),
            {
                proof {
                    let longer = tried.take(walk.index() + 1);
                    assert(longer.drop_last() =~= tried.take(walk.index()));
                    assert(longer.last() == message@);
                }
                self.retry(message);
            }
            proof {
                lemma_take_all(tried);
            }
            if self.waiting.len() >= before {
                moving = false;
            }
        }
    }

    /// Takes a message in: admits it if the graph holds all its parents, and
    /// then what waits for it; keeps it waiting if a parent is missing;
    /// leaves all as it is if the message is held already.
    fn take(&mut self, message: Message) -> (outcome: Admission)
        ensures
            final(self)@ == (ReplicaView {
                dag: taken(old(self)@.dag, old(self)@.waiting, message@).0,
                waiting: taken(old(self)@.dag, old(self)@.waiting, message@).1,
                ..old(self)@
            }),
            taking(old(self)@.dag, old(self)@.waiting, message@, outcome),
            outcome != Admission::Discarded,
    {
        if self.holds(&message.id) {
            return Admission::Held;
        }
        let ghost given = message@;
        match self.dag.first_missing(&message) {
            Some(missing_parent) => {
                proof {
                    let index = choose|index: int|
                        first_missing_parent(self@.dag.messages, given, index) && missing_parent
                            == given.parent_hashes[index];
                    assert(!self@.dag.messages.contains_key(given.parent_hashes[index].0));
                }
                self.waiting.push(message);
                assert(self@.waiting =~= old(self)@.waiting.push(given));
                Admission::Waiting { missing_parent }
            },
            None => {
                let admission = self.dag.add_message(message);
                proof {
                    if let Err(DagError::MissingParent { message_id, missing_parent }) = admission {
                        let index = choose|index: int|
                            first_missing_parent(old(self)@.dag.messages, given, index)
                                && missing_parent == given.parent_hashes[index];
                        assert(old(self)@.dag.messages.contains_key(given.parent_hashes[index].0));
                    }
                }
                self.settle();
                Admission::Admitted
            },
        }
    }

    /// On a chat message from a peer, once it is persisted: merges the
    /// message's vector clock into the replica's, moves the Lamport counter
    /// to one past the greater of its own and the message's, and takes the
    /// message in. It is admitted to the graph if the graph holds all its
    /// parents, and with it whatever waited for it; else it waits.
    ///
    /// A message whose Lamport counter leaves no room for a greater one is
    /// discarded.
    pub fn receive_message(&mut self, message: Message) -> (outcome: Admission)
        ensures
            outcome == Admission::Discarded <==> greater(
                old(self)@.lamport_clock,
                message.lamport_timestamp,
            ) == u64::MAX,
            outcome == Admission::Discarded ==> final(self)@ == old(self)@,
            outcome != Admission::Discarded ==> final(self)@ == (ReplicaView {
                dag: taken(old(self)@.dag, old(self)@.waiting, message@).0,
                waiting: taken(old(self)@.dag, old(self)@.waiting, message@).1,
                lamport_clock: (greater(old(self)@.lamport_clock, message.lamport_timestamp)
                    + 1) as u64,
                vector_clock: joined(old(self)@.vector_clock, message@.vector_clock),
                ..old(self)@
            }),
            taking(old(self)@.dag, old(self)@.waiting, message@, outcome),
    {
        let seen = if self.lamport_clock >= message.lamport_timestamp {
            self.lamport_clock
        } else {
            message.lamport_timestamp
        };
        if seen == u64::MAX {
            return Admission::Discarded;
        }
        self.vector_clock.merge(&message.vector_clock);
        self.lamport_clock = seen + 1;
        self.take(message)
    }

    /// On a batch of messages from a peer, once they are persisted: takes
    /// each in, in the order of the batch, and then asks for every message
    /// that is still wanted: named as a parent by a message held here and
    /// not held itself.
    pub fn receive_messages(&mut self, channel_id: ChannelId, messages: Vec<Message>) -> (command:
        Option<NetworkCommand>)
        ensures
            final(self)@ == (ReplicaView {
                dag: taken_all(old(self)@.dag, old(self)@.waiting, views(messages@)).0,
                waiting: taken_all(old(self)@.dag, old(self)@.waiting, views(messages@)).1,
                ..old(self)@
            }),
            match command {
                Some(command) => command@ matches NetworkCommandView::RequestMessages {
                    channel_id: channel,
                    message_ids,
                } && channel == channel_id && message_ids.len() > 0 && message_ids.no_duplicates()
                    && (forall|id: MessageId|
                    message_ids.contains(id) <==> wanted(
                        final(self)@.dag.messages,
                        final(self)@.waiting,
                        id.0,
                    )),
                None => forall|number: u128|
                    !wanted(final(self)@.dag.messages, final(self)@.waiting, number),
            },
    {
        let ghost batch = views(messages@);
        assert(taken_all(self@.dag, self@.waiting, batch.take(0)) == (self@.dag, self@.waiting));
        for message in walk: messages.into_iter()
            invariant
                walk.seq() == messages@,
                batch == views(messages@),
                self@ == (ReplicaView { dag: self@.dag, waiting: self@.waiting, ..old(self)@ }),
                (self@.dag, self@.waiting) == taken_all(
                    old(self)@.dag,
                    old(self)@.waiting,
                    batch.take(walk.index()),
                ),
        {
            proof {
                let longer = batch.take(walk.index() + 1);
                assert(longer.drop_last() =~= batch.take(walk.index()));
                assert(longer.last() == message@);
            }
            let _ = self.take(message);
        }
        proof {
            lemma_take_all(batch);
        }
        self.gossip.detect_and_request_missing(channel_id, &self.dag, &self.waiting)
    }

    /// On the state of a channel from a peer (an announcement, an answer to
    /// a state request, an update): merges it into the channel if the
    /// channel is known, else records it as it is.
    ///
    /// A state that cannot be merged because the logical counter of one of
    /// the two clocks leaves no room for a greater one is discarded.
    pub fn receive_channel(&mut self, channel: Channel) -> (change: ChannelChange)
        ensures
            match change {
                ChannelChange::Added(index) => {
                    &&& unknown(old(self)@.channels, channel.id)
                    &&& index == old(self)@.channels.len()
                    &&& final(self)@ == (ReplicaView {
                        channels: old(self)@.channels.push(channel@),
                        ..old(self)@
                    })
                },
                ChannelChange::Merged(index) => {
                    &&& first_with_id(old(self)@.channels, channel.id, index as int)
                    &&& old(self)@.channels[index as int].clock_latest.logical < u64::MAX
                    &&& channel@.clock_latest.logical < u64::MAX
                    &&& final(self)@ == (ReplicaView {
                        channels: old(self)@.channels.update(
                            index as int,
                            final(self)@.channels[index as int],
                        ),
                        ..old(self)@
                    })
                    &&& final(self)@.channels.len() == old(self)@.channels.len()
                    &&& merges(
                        old(self)@.channels[index as int],
                        channel@,
                        final(self)@.channels[index as int],
                    )
                },
                ChannelChange::Discarded => {
                    &&& final(self)@ == old(self)@
                    &&& exists|index: int|
                        first_with_id(old(self)@.channels, channel.id, index) && (old(
                            self,
                        )@.channels[index].clock_latest.logical == u64::MAX
                            || channel@.clock_latest.logical == u64::MAX)
                },
            },
    {
        match self.find_channel(channel.id) {
            Some(index) => {
                if self.channels[index].hlc.latest().logical == u64::MAX
                    || channel.hlc.latest().logical == u64::MAX {
                    return ChannelChange::Discarded;
                }
                let mut known = self.channels.remove(index);
                let ghost before = known@;
                known.merge(&channel);
                let ghost after = known@;
                self.channels.insert(index, known);
                proof {
                    assert(self@.channels =~= old(self)@.channels.update(index as int, after));
                }
                ChannelChange::Merged(index)
            },
            None => {
                let index = self.channels.len();
                self.channels.push(channel);
                assert(self@.channels =~= old(self)@.channels.push(channel@));
                ChannelChange::Added(index)
            },
        }
    }

    /// On a request for the state of a channel: the command that answers it
    /// with the channel's full state, if the channel is known; none else.
    pub fn answer_state_request(&self, channel_id: ChannelId) -> (command: Option<NetworkCommand>)
        ensures
            match command {
                Some(command) => exists|index: int|
                    first_with_id(self@.channels, channel_id, index) && command@
                        == NetworkCommandView::RespondWithChannelState(self@.channels[index]),
                None => unknown(self@.channels, channel_id),
            },
    {
        match self.find_channel(channel_id) {
            Some(index) => {
                let channel = self.channels[index].clone();
                assert(first_with_id(self@.channels, channel_id, index as int));
                Some(NetworkCommand::RespondWithChannelState(channel))
            },
            None => None,
        }
    }

    /// On a request for an inventory of a channel, once the repository has
    /// told which messages of the channel it holds: the command that
    /// publishes them as the inventory.
    pub fn answer_inventory_request(&self, channel_id: ChannelId, held: &Vec<MessageId>) -> (command:
        NetworkCommand)
        ensures
            command@ matches NetworkCommandView::BroadcastInventory { channel_id: channel, message_ids }
                && channel == channel_id && ascending(message_ids) && (forall|id: MessageId|
                message_ids.contains(id) <==> held@.contains(id)),
    {
        self.gossip.send_inventory(channel_id, held)
    }

    /// On an inventory from a peer: the command that asks for the messages
    /// that the peer holds and the replica does not, neither in the graph nor
    /// waiting; none where nothing is lacking.
    pub fn receive_inventory(&self, channel_id: ChannelId, their_message_ids: &Vec<MessageId>) -> (command:
        Option<NetworkCommand>)
        ensures
            match command {
                Some(command) => command@ matches NetworkCommandView::RequestMessages {
                    channel_id: channel,
                    message_ids,
                } && channel == channel_id && message_ids.len() > 0 && message_ids.no_duplicates()
                    && (forall|id: MessageId|
                    message_ids.contains(id) <==> their_message_ids@.contains(id)
                        && !self@.dag.messages.contains_key(id.0) && !is_waiting(
                        self@.waiting,
                        id.0,
                    )),
                None => forall|id: MessageId|
                    their_message_ids@.contains(id) ==> self@.dag.messages.contains_key(id.0)
                        || is_waiting(self@.waiting, id.0),
            },
    {
        self.gossip.handle_inventory(channel_id, their_message_ids, &self.dag, &self.waiting)
    }

    /// On a request for messages, once the repository has looked them up:
    /// the command that sends those found; none where none was found.
    pub fn answer_message_request(&self, channel_id: ChannelId, found: Vec<Message>) -> (command:
        Option<NetworkCommand>)
        ensures
            match command {
                Some(command) => found@.len() > 0 && command@
                    == (NetworkCommandView::RespondWithMessages {
                    channel_id,
                    messages: views(found@),
                }),
                None => found@.len() == 0,
            },
    {
        self.gossip.handle_message_request(channel_id, found)
    }

    /// Writes a message of this peer for a channel known: counts the event
    /// in the vector clock, raises the Lamport counter by one, and stamps
    /// the message with both and with the heads of the channel as its
    /// parents. The message is to be persisted and then published.
    ///
    /// Nothing is written, and nothing changes, where the channel is not
    /// known or one of the two counters leaves no room for a greater one.
    pub fn compose(&mut self, channel_id: ChannelId, text: String) -> (written: Option<Message>)
        ensures
            written is None <==> unknown(old(self)@.channels, channel_id) || old(
                self,
            )@.lamport_clock == u64::MAX || counter(
                old(self)@.vector_clock,
                old(self)@.peer_id.0,
            ) == u64::MAX,
            written is None ==> final(self)@ == old(self)@,
            written matches Some(message) ==> {
                &&& final(self)@ == (ReplicaView {
                    lamport_clock: (old(self)@.lamport_clock + 1) as u64,
                    vector_clock: old(self)@.vector_clock.insert(
                        old(self)@.peer_id.0,
                        (counter(old(self)@.vector_clock, old(self)@.peer_id.0) + 1) as u64,
                    ),
                    ..old(self)@
                })
                &&& is_version_seven(message@.id.0)
                &&& message@.channel_id == channel_id
                &&& message@.author == old(self)@.peer_id
                &&& message@.text == text@
                &&& message@.lamport_timestamp == final(self)@.lamport_clock
                &&& message@.vector_clock == final(self)@.vector_clock
                &&& message@.parent_hashes.no_duplicates()
                &&& forall|id: MessageId|
                    message@.parent_hashes.contains(id) <==> items_at(
                        old(self)@.dag.heads,
                        channel_id.0,
                    ).contains(id.0)
            },
    {
        if self.find_channel(channel_id).is_none() {
            return None;
        }
        if self.lamport_clock == u64::MAX || self.vector_clock.get(&self.peer_id) == u64::MAX {
            return None;
        }
        self.lamport_clock = self.lamport_clock + 1;
        self.vector_clock.increment(self.peer_id);
        let parent_hashes = self.dag.get_heads(&channel_id);
        let mut message = Message::new(
            channel_id,
            self.peer_id,
            MessageContent { text },
            self.vector_clock.clone(),
            self.lamport_clock,
        );
        message.parent_hashes = parent_hashes;
        Some(message)
    }

    /// Publishes a message of this peer, once it is persisted: takes it in,
    /// as a message received is taken in, and gives the command that
    /// broadcasts it.
    pub fn publish(&mut self, message: Message) -> (command: NetworkCommand)
        ensures
            final(self)@ == (ReplicaView {
                dag: taken(old(self)@.dag, old(self)@.waiting, message@).0,
                waiting: taken(old(self)@.dag, old(self)@.waiting, message@).1,
                ..old(self)@
            }),
            command@ == NetworkCommandView::BroadcastMessage(message@),
    {
        let copy = message.clone();
        let _ = self.take(message);
        NetworkCommand::BroadcastMessage(copy)
    }
}

/// `after` is `before` with `other` merged into it: the name is the
/// later-written of the two, the members carry the tags of both, the clock
/// has moved past both clocks, and the rest is as before.
pub open spec fn merges(before: ChannelView, other: ChannelView, after: ChannelView) -> bool {
    &&& after.name == merged_name(before, other)
    &&& after.members == merged_members(before, other)
    &&& before.clock_latest.precedes(after.clock_latest)
    &&& other.clock_latest.precedes(after.clock_latest)
    &&& after == (ChannelView {
        name: after.name,
        members: after.members,
        clock_latest: after.clock_latest,
        ..before
    })
}

/// Trying again what waits takes no message out of the graph.
pub proof fn lemma_one_round_keeps(dag: DagView, waiting: Seq<MessageView>, number: u128)
    requires
        dag.messages.contains_key(number),
    ensures
        one_round(dag, waiting).0.messages.contains_key(number),
        one_round(dag, waiting).1.len() <= waiting.len(),
    decreases waiting.len(),
{
    if waiting.len() > 0 {
        lemma_one_round_keeps(dag, waiting.drop_last(), number);
    }
}

/// Admitting what waits takes no message out of the graph.
pub proof fn lemma_settled_keeps(dag: DagView, waiting: Seq<MessageView>, number: u128)
    requires
        dag.messages.contains_key(number),
    ensures
        settled(dag, waiting).0.messages.contains_key(number),
    decreases waiting.len(),
{
    lemma_one_round_keeps(dag, waiting, number);
    let next = one_round(dag, waiting);
    if next.1.len() < waiting.len() {
        lemma_settled_keeps(next.0, next.1, number);
    }
}

/// A round that lets no fewer messages wait has changed nothing: every
/// message that waited lacks a parent still, and none is in the graph.
pub proof fn lemma_round_without_progress(dag: DagView, waiting: Seq<MessageView>)
    ensures
        one_round(dag, waiting).1.len() <= waiting.len(),
        one_round(dag, waiting).1.len() == waiting.len() ==> {
            &&& one_round(dag, waiting) == (dag, waiting)
            &&& forall|i: int|
                0 <= i < waiting.len() ==> !dag.messages.contains_key(
                    (#[trigger] waiting[i]).id.0,
                ) && !parents_present(dag.messages, waiting[i])
        },
    decreases waiting.len(),
{
    if waiting.len() > 0 {
        let shorter = waiting.drop_last();
        lemma_round_without_progress(dag, shorter);
        let before = one_round(dag, shorter);
        let after = one_round(dag, waiting);
        if after.1.len() == waiting.len() {
            assert(before.1.len() == shorter.len());
            assert(after.1 == shorter.push(waiting.last()));
            assert(shorter.push(waiting.last()) =~= waiting);
            assert forall|i: int| 0 <= i < waiting.len() implies !dag.messages.contains_key(
                (#[trigger] waiting[i]).id.0,
            ) && !parents_present(dag.messages, waiting[i]) by {
                if i < shorter.len() {
                    assert(shorter[i] == waiting[i]);
                }
            }
        }
    } else {
        assert(Seq::<MessageView>::empty() =~= waiting);
    }
}

/// Once what waits has settled, every message that goes on waiting lacks a
/// parent, and none of them is in the graph: a message sits unadmitted only
/// until its parents have arrived.
pub proof fn lemma_settled_leaves_only_the_blocked(dag: DagView, waiting: Seq<MessageView>)
    ensures
        ({
            let rest = settled(dag, waiting);
            forall|i: int|
                0 <= i < rest.1.len() ==> !rest.0.messages.contains_key(
                    (#[trigger] rest.1[i]).id.0,
                ) && !parents_present(rest.0.messages, rest.1[i])
        }),
    decreases waiting.len(),
{
    let next = one_round(dag, waiting);
    lemma_round_without_progress(dag, waiting);
    if next.1.len() < waiting.len() {
        lemma_settled_leaves_only_the_blocked(next.0, next.1);
        assert(settled(dag, waiting) == settled(next.0, next.1));
    } else {
        assert(next.1.len() == waiting.len());
        assert(settled(dag, waiting) == next);
        assert(next == (dag, waiting));
        let rest = settled(dag, waiting);
        assert forall|i: int| 0 <= i < rest.1.len() implies !rest.0.messages.contains_key(
            (#[trigger] rest.1[i]).id.0,
        ) && !parents_present(rest.0.messages, rest.1[i]) by {
            assert(rest.1[i] == waiting[i]);
        }
    }
}

/// A message that a peer writes on the heads of its channel becomes the
/// channel's only head. The graph is in order, the message names exactly the
/// heads of its channel as its parents, as [`Replica::compose`] makes it,
/// and its identifier is new: then the graph holds all its parents, and once
/// it is taken in, with nothing waiting, it is the one head of the channel.
pub proof fn lemma_local_message_becomes_the_head(dag: DagView, message: MessageView)
    requires
        heads_are_sinks(dag),
        forall|id: MessageId|
            message.parent_hashes.contains(id) <==> items_at(
                dag.heads,
                message.channel_id.0,
            ).contains(id.0),
        !dag.messages.contains_key(message.id.0),
    ensures
        parents_present(dag.messages, message),
        taken(dag, Seq::empty(), message) == (admitted(dag, message), Seq::<MessageView>::empty()),
        items_at(admitted(dag, message).heads, message.channel_id.0) == set![message.id.0],
{
    let channel = message.channel_id.0;
    assert forall|j: int| 0 <= j < message.parent_hashes.len() implies dag.messages.contains_key(
        #[trigger] message.parent_hashes[j].0,
    ) by {
        let id = message.parent_hashes[j];
        assert(message.parent_hashes.contains(id));
        assert(items_at(dag.heads, channel).contains(id.0));
    }
    assert(!is_waiting(Seq::<MessageView>::empty(), message.id.0));
    assert(one_round(admitted(dag, message), Seq::<MessageView>::empty()) == (
        admitted(dag, message),
        Seq::<MessageView>::empty(),
    ));
    assert forall|number: u128|
        items_at(admitted(dag, message).heads, channel).contains(number) <==> number
            == message.id.0 by {
        if items_at(dag.heads, channel).contains(number) {
            assert(message.parent_hashes.contains(MessageId(number)));
            assert(id_numbers(message.parent_hashes).contains(number));
        }
    }
    assert(items_at(admitted(dag, message).heads, channel) =~= set![message.id.0]);
}

/// A message that is taken in a second time changes nothing: a frame that
/// carries a message may be replayed.
pub proof fn lemma_taken_again_changes_nothing(
    dag: DagView,
    waiting: Seq<MessageView>,
    message: MessageView,
)
    ensures
        ({
            let once = taken(dag, waiting, message);
            taken(once.0, once.1, message) == once
        }),
{
    let once = taken(dag, waiting, message);
    if dag.messages.contains_key(message.id.0) || is_waiting(waiting, message.id.0) {
    } else if parents_present(dag.messages, message) {
        lemma_settled_keeps(admitted(dag, message), waiting, message.id.0);
    } else {
        assert(once.1[waiting.len() as int].id.0 == message.id.0);
    }
}

} // verus!
