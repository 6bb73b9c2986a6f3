//! The frames that peers exchange, and how they relate to the events and
//! commands of the transport.

use vstd::prelude::*;
use crate::channel::{Channel, ChannelView};
use crate::ids::{ChannelId, MessageId, PeerId};
use crate::message::{clone_messages, views, Message, MessageView};
use crate::network::{NetworkCommand, NetworkCommandView, NetworkEvent, NetworkEventView};

verus! {

/// A frame: what one peer publishes to the others.
#[derive(Debug)]
pub enum NetworkMessage {
    /// A chat message, published as soon as it is written.
    ChatMessage(Message),
    /// Asks for the messages of a channel since a time.
    SyncRequest { channel_id: ChannelId, since_timestamp: u64 },
    /// Answers a sync request.
    SyncResponse { channel_id: ChannelId, messages: Vec<Message> },
    /// Announces a peer and the addresses it listens on.
    PeerAnnounce { peer_id: PeerId, listen_addresses: Vec<String> },
    /// Publishes a new channel, with its full replicated state.
    ChannelAnnounce { channel: Channel },
    /// Asks any holder for the full state of a channel.
    ChannelStateRequest { channel_id: ChannelId },
    /// Answers a request for the state of a channel.
    ChannelStateResponse { channel: Channel },
    /// Publishes a change of a channel's name or members.
    ChannelUpdate { channel: Channel },
    /// Asks for messages by their identifiers.
    MessageRequest { channel_id: ChannelId, message_ids: Vec<MessageId> },
    /// Delivers messages that were asked for.
    MessageResponse { channel_id: ChannelId, messages: Vec<Message> },
    /// Tells which messages of a channel the sender holds.
    MessageInventory { channel_id: ChannelId, message_ids: Vec<MessageId> },
    /// Asks the holders of a channel to tell which messages they hold.
    InventoryRequest { channel_id: ChannelId },
}

/// The texts of `list` as sequences of characters.
pub open spec fn texts(list: Seq<String>) -> Seq<Seq<char>> {
    Seq::new(list.len(), |i: int| list[i]@)
}

/// A frame as a mathematical value.
pub enum NetworkMessageView {
    ChatMessage(MessageView),
    SyncRequest { channel_id: ChannelId, since_timestamp: u64 },
    SyncResponse { channel_id: ChannelId, messages: Seq<MessageView> },
    PeerAnnounce { peer_id: PeerId, listen_addresses: Seq<Seq<char>> },
    ChannelAnnounce { channel: ChannelView },
    ChannelStateRequest { channel_id: ChannelId },
    ChannelStateResponse { channel: ChannelView },
    ChannelUpdate { channel: ChannelView },
    MessageRequest { channel_id: ChannelId, message_ids: Seq<MessageId> },
    MessageResponse { channel_id: ChannelId, messages: Seq<MessageView> },
    MessageInventory { channel_id: ChannelId, message_ids: Seq<MessageId> },
    InventoryRequest { channel_id: ChannelId },
}

impl View for NetworkMessage {
    type V = NetworkMessageView;

    open spec fn view(&self) -> NetworkMessageView {
        match *self {
            NetworkMessage::ChatMessage(message) => NetworkMessageView::ChatMessage(message@),
            NetworkMessage::SyncRequest {
                channel_id,
                since_timestamp,
            } => NetworkMessageView::SyncRequest { channel_id, since_timestamp },
            NetworkMessage::SyncResponse {
                channel_id,
                messages,
            } => NetworkMessageView::SyncResponse { channel_id, messages: views(messages@) },
            NetworkMessage::PeerAnnounce {
                peer_id,
                listen_addresses,
            } => NetworkMessageView::PeerAnnounce {
                peer_id,
                listen_addresses: texts(listen_addresses@),
            },
            NetworkMessage::ChannelAnnounce { channel } => NetworkMessageView::ChannelAnnounce {
                channel: channel@,
            },
            NetworkMessage::ChannelStateRequest {
                channel_id,
            } => NetworkMessageView::ChannelStateRequest { channel_id },
            NetworkMessage::ChannelStateResponse {
                channel,
            } => NetworkMessageView::ChannelStateResponse { channel: channel@ },
            NetworkMessage::ChannelUpdate { channel } => NetworkMessageView::ChannelUpdate {
                channel: channel@,
            },
            NetworkMessage::MessageRequest {
                channel_id,
                message_ids,
            } => NetworkMessageView::MessageRequest { channel_id, message_ids: message_ids@ },
            NetworkMessage::MessageResponse {
                channel_id,
                messages,
            } => NetworkMessageView::MessageResponse { channel_id, messages: views(messages@) },
            NetworkMessage::MessageInventory {
                channel_id,
                message_ids,
            } => NetworkMessageView::MessageInventory { channel_id, message_ids: message_ids@ },
            NetworkMessage::InventoryRequest { channel_id } => NetworkMessageView::InventoryRequest {
                channel_id,
            },
        }
    }
}

/// The event that a frame received from the peer `from` stands for, if any.
pub open spec fn event_of(frame: NetworkMessageView, from: Seq<char>) -> Option<NetworkEventView> {
    match frame {
        NetworkMessageView::ChatMessage(message) => Some(
            NetworkEventView::MessageReceived(message),
        ),
        NetworkMessageView::ChannelAnnounce { channel } => Some(
            NetworkEventView::ChannelAnnounced(channel),
        ),
        NetworkMessageView::ChannelStateRequest { channel_id } => Some(
            NetworkEventView::ChannelStateRequested { channel_id, requesting_peer: from },
        ),
        NetworkMessageView::ChannelStateResponse { channel } => Some(
            NetworkEventView::ChannelStateReceived(channel),
        ),
        NetworkMessageView::ChannelUpdate { channel } => Some(
            NetworkEventView::ChannelUpdated(channel),
        ),
        NetworkMessageView::MessageRequest { channel_id, message_ids } => Some(
            NetworkEventView::MessageRequested { channel_id, message_ids, requesting_peer: from },
        ),
        NetworkMessageView::MessageResponse { channel_id, messages } => Some(
            NetworkEventView::MessagesReceived { channel_id, messages },
        ),
        NetworkMessageView::MessageInventory { channel_id, message_ids } => Some(
            NetworkEventView::InventoryReceived { channel_id, message_ids, from_peer: from },
        ),
        NetworkMessageView::InventoryRequest { channel_id } => Some(
            NetworkEventView::InventoryRequested { channel_id, requesting_peer: from },
        ),
        NetworkMessageView::SyncRequest { .. } => None,
        NetworkMessageView::SyncResponse { .. } => None,
        NetworkMessageView::PeerAnnounce { .. } => None,
    }
}

/// The frame that carries out a command, if the command is one that is
/// published to the peers.
pub open spec fn frame_of(command: NetworkCommandView) -> Option<NetworkMessageView> {
    match command {
        NetworkCommandView::BroadcastMessage(message) => Some(
            NetworkMessageView::ChatMessage(message),
        ),
        NetworkCommandView::AnnounceChannel(channel) => Some(
            NetworkMessageView::ChannelAnnounce { channel },
        ),
        NetworkCommandView::RequestChannelState(channel_id) => Some(
            NetworkMessageView::ChannelStateRequest { channel_id },
        ),
        NetworkCommandView::BroadcastChannelUpdate(channel) => Some(
            NetworkMessageView::ChannelUpdate { channel },
        ),
        NetworkCommandView::RespondWithChannelState(channel) => Some(
            NetworkMessageView::ChannelStateResponse { channel },
        ),
        NetworkCommandView::RequestMessages { channel_id, message_ids } => Some(
            NetworkMessageView::MessageRequest { channel_id, message_ids },
        ),
        NetworkCommandView::RespondWithMessages { channel_id, messages } => Some(
            NetworkMessageView::MessageResponse { channel_id, messages },
        ),
        NetworkCommandView::BroadcastInventory { channel_id, message_ids } => Some(
            NetworkMessageView::MessageInventory { channel_id, message_ids },
        ),
        NetworkCommandView::RequestInventory { channel_id } => Some(
            NetworkMessageView::InventoryRequest { channel_id },
        ),
        NetworkCommandView::ConnectToPeer(_) => None,
        NetworkCommandView::ListPeers => None,
    }
}

impl NetworkMessage {
    /// The event that this frame, received from the peer `from`, is reported
    /// as. Frames that the application does not act on give none.
    pub fn into_event(self, from: String) -> (event: Option<NetworkEvent>)
        ensures
            match event {
                Some(event) => event_of(self@, from@) == Some(event@),
                None => event_of(self@, from@) is None,
            },
    {
        match self {
            NetworkMessage::ChatMessage(message) => Some(NetworkEvent::MessageReceived(message)),
            NetworkMessage::ChannelAnnounce { channel } => Some(
                NetworkEvent::ChannelAnnounced(channel),
            ),
            NetworkMessage::ChannelStateRequest { channel_id } => Some(
                NetworkEvent::ChannelStateRequested { channel_id, requesting_peer: from },
            ),
            NetworkMessage::ChannelStateResponse { channel } => Some(
                NetworkEvent::ChannelStateReceived(channel),
            ),
            NetworkMessage::ChannelUpdate { channel } => Some(NetworkEvent::ChannelUpdated(channel)),
            NetworkMessage::MessageRequest { channel_id, message_ids } => Some(
                NetworkEvent::MessageRequested { channel_id, message_ids, requesting_peer: from },
            ),
            NetworkMessage::MessageResponse { channel_id, messages } => Some(
                NetworkEvent::MessagesReceived { channel_id, messages },
            ),
            NetworkMessage::MessageInventory { channel_id, message_ids } => Some(
                NetworkEvent::InventoryReceived { channel_id, message_ids, from_peer: from },
            ),
            NetworkMessage::InventoryRequest { channel_id } => Some(
                NetworkEvent::InventoryRequested { channel_id, requesting_peer: from },
            ),
            NetworkMessage::SyncRequest { .. } => None,
            NetworkMessage::SyncResponse { .. } => None,
            NetworkMessage::PeerAnnounce { .. } => None,
        }
    }

    /// The frame to publish for `command`. Commands that publish nothing
    /// (to connect, to list the peers) give none.
    pub fn from_command(command: NetworkCommand) -> (frame: Option<NetworkMessage>)
        ensures
            match frame {
                Some(frame) => frame_of(command@) == Some(frame@),
                None => frame_of(command@) is None,
            },
    {
        match command {
            NetworkCommand::BroadcastMessage(message) => Some(NetworkMessage::ChatMessage(message)),
            NetworkCommand::AnnounceChannel(channel) => Some(
                NetworkMessage::ChannelAnnounce { channel },
            ),
            NetworkCommand::RequestChannelState(channel_id) => Some(
                NetworkMessage::ChannelStateRequest { channel_id },
            ),
            NetworkCommand::BroadcastChannelUpdate(channel) => Some(
                NetworkMessage::ChannelUpdate { channel },
            ),
            NetworkCommand::RespondWithChannelState(channel) => Some(
                NetworkMessage::ChannelStateResponse { channel },
            ),
            NetworkCommand::RequestMessages { channel_id, message_ids } => Some(
                NetworkMessage::MessageRequest { channel_id, message_ids },
            ),
            NetworkCommand::RespondWithMessages { channel_id, messages } => Some(
                NetworkMessage::MessageResponse { channel_id, messages },
            ),
            NetworkCommand::BroadcastInventory { channel_id, message_ids } => Some(
                NetworkMessage::MessageInventory { channel_id, message_ids },
            ),
            NetworkCommand::RequestInventory { channel_id } => Some(
                NetworkMessage::InventoryRequest { channel_id },
            ),
            NetworkCommand::ConnectToPeer(_) => None,
            NetworkCommand::ListPeers => None,
        }
    }
}

/// The event as which a command reaches the other peers, once its frame
/// has gone over the wire from the peer `from`: a chat message arrives as a
/// message received, an inventory as an inventory received, and so on, each
/// with what the command carried.
pub open spec fn arrives_as(command: NetworkCommandView, from: Seq<char>) -> Option<
    NetworkEventView,
> {
    match command {
        NetworkCommandView::BroadcastMessage(message) => Some(
            NetworkEventView::MessageReceived(message),
        ),
        NetworkCommandView::AnnounceChannel(channel) => Some(
            NetworkEventView::ChannelAnnounced(channel),
        ),
        NetworkCommandView::RequestChannelState(channel_id) => Some(
            NetworkEventView::ChannelStateRequested { channel_id, requesting_peer: from },
        ),
        NetworkCommandView::BroadcastChannelUpdate(channel) => Some(
            NetworkEventView::ChannelUpdated(channel),
        ),
        NetworkCommandView::RespondWithChannelState(channel) => Some(
            NetworkEventView::ChannelStateReceived(channel),
        ),
        NetworkCommandView::RequestMessages { channel_id, message_ids } => Some(
            NetworkEventView::MessageRequested { channel_id, message_ids, requesting_peer: from },
        ),
        NetworkCommandView::RespondWithMessages { channel_id, messages } => Some(
            NetworkEventView::MessagesReceived { channel_id, messages },
        ),
        NetworkCommandView::BroadcastInventory { channel_id, message_ids } => Some(
            NetworkEventView::InventoryReceived { channel_id, message_ids, from_peer: from },
        ),
        NetworkCommandView::RequestInventory { channel_id } => Some(
            NetworkEventView::InventoryRequested { channel_id, requesting_peer: from },
        ),
        NetworkCommandView::ConnectToPeer(_) => None,
        NetworkCommandView::ListPeers => None,
    }
}

/// Every command that is published has a frame, and the frame stands at the
/// receiving peer for the event as which the command is meant to arrive.
pub proof fn lemma_commands_arrive_as_events(command: NetworkCommandView, from: Seq<char>)
    ensures
        frame_of(command) is Some <==> arrives_as(command, from) is Some,
        frame_of(command) matches Some(frame) ==> event_of(frame, from) == arrives_as(
            command,
            from,
        ),
{
}

/// A copy of each text of `list`, in the same order.
pub fn clone_texts(list: &Vec<String>) -> (copy: Vec<String>)
    ensures
        texts(copy@) == texts(list@),
{
    let mut copy: Vec<String> = Vec::new();
    let mut i: usize = 0;
    while i < list.len()
        invariant
            i <= list.len(),
            copy@.len() == i,
            forall|j: int| 0 <= j < i ==> (#[trigger] copy@[j])@ == list@[j]@,
        decreases list.len() - i,
    {
        copy.push(list[i].clone());
        i = i + 1;
    }
    assert(texts(copy@) =~= texts(list@));
    copy
}

impl Clone for NetworkMessage {
    fn clone(&self) -> (copy: Self)
        ensures
            copy@ == self@,
    {
        match self {
            NetworkMessage::ChatMessage(message) => NetworkMessage::ChatMessage(message.clone()),
            NetworkMessage::SyncRequest { channel_id, since_timestamp } => NetworkMessage::SyncRequest {
                channel_id: *channel_id,
                since_timestamp: *since_timestamp,
            },
            NetworkMessage::SyncResponse { channel_id, messages } => NetworkMessage::SyncResponse {
                channel_id: *channel_id,
                messages: clone_messages(messages),
            },
            NetworkMessage::PeerAnnounce { peer_id, listen_addresses } => NetworkMessage::PeerAnnounce {
                peer_id: *peer_id,
                listen_addresses: clone_texts(listen_addresses),
            },
            NetworkMessage::ChannelAnnounce { channel } => NetworkMessage::ChannelAnnounce {
                channel: channel.clone(),
            },
            NetworkMessage::ChannelStateRequest {
                channel_id,
            } => NetworkMessage::ChannelStateRequest { channel_id: *channel_id },
            NetworkMessage::ChannelStateResponse {
                channel,
            } => NetworkMessage::ChannelStateResponse { channel: channel.clone() },
            NetworkMessage::ChannelUpdate { channel } => NetworkMessage::ChannelUpdate {
                channel: channel.clone(),
            },
            NetworkMessage::MessageRequest { channel_id, message_ids } => NetworkMessage::MessageRequest {
                channel_id: *channel_id,
                message_ids: MessageId::clone_all(message_ids),
            },
            NetworkMessage::MessageResponse { channel_id, messages } => NetworkMessage::MessageResponse {
                channel_id: *channel_id,
                messages: clone_messages(messages),
            },
            NetworkMessage::MessageInventory {
                channel_id,
                message_ids,
            } => NetworkMessage::MessageInventory {
                channel_id: *channel_id,
                message_ids: MessageId::clone_all(message_ids),
            },
            NetworkMessage::InventoryRequest { channel_id } => NetworkMessage::InventoryRequest {
                channel_id: *channel_id,
            },
        }
    }
}

} // verus!
