//! What the replication core and the transport say to each other: events
//! that the transport reports, and commands that it carries out.
//!
//! A peer of the transport and an address are held as the text that the
//! transport writes them in.

use vstd::prelude::*;
use crate::channel::{Channel, ChannelView};
use crate::ids::{ChannelId, MessageId};
use crate::message::{clone_messages, views, Message, MessageView};

verus! {

/// An event that the transport reports to the application.
#[derive(Debug)]
pub enum NetworkEvent {
    /// A peer has connected.
    PeerConnected(String),
    /// A peer has disconnected.
    PeerDisconnected(String),
    /// A chat message has come in.
    MessageReceived(Message),
    /// The transport listens on an address.
    ListeningOn(String),
    /// An attempt to connect has failed.
    ConnectionFailed { address: String, error: String },
    /// An attempt to connect has begun.
    ConnectionDialing { address: String },
    /// A peer has announced a channel.
    ChannelAnnounced(Channel),
    /// The full state of a channel has come in, in answer to a request.
    ChannelStateReceived(Channel),
    /// A peer has sent a change of a channel.
    ChannelUpdated(Channel),
    /// A peer asks for the full state of a channel.
    ChannelStateRequested { channel_id: ChannelId, requesting_peer: String },
    /// A peer asks for messages by their identifiers.
    MessageRequested { channel_id: ChannelId, message_ids: Vec<MessageId>, requesting_peer: String },
    /// Messages have come in, in answer to a request.
    MessagesReceived { channel_id: ChannelId, messages: Vec<Message> },
    /// A peer has told which messages of a channel it holds.
    InventoryReceived { channel_id: ChannelId, message_ids: Vec<MessageId>, from_peer: String },
    /// A peer asks which messages of a channel are held here.
    InventoryRequested { channel_id: ChannelId, requesting_peer: String },
}

/// An event as a mathematical value.
pub enum NetworkEventView {
    PeerConnected(Seq<char>),
    PeerDisconnected(Seq<char>),
    MessageReceived(MessageView),
    ListeningOn(Seq<char>),
    ConnectionFailed { address: Seq<char>, error: Seq<char> },
    ConnectionDialing { address: Seq<char> },
    ChannelAnnounced(ChannelView),
    ChannelStateReceived(ChannelView),
    ChannelUpdated(ChannelView),
    ChannelStateRequested { channel_id: ChannelId, requesting_peer: Seq<char> },
    MessageRequested {
        channel_id: ChannelId,
        message_ids: Seq<MessageId>,
        requesting_peer: Seq<char>,
    },
    MessagesReceived { channel_id: ChannelId, messages: Seq<MessageView> },
    InventoryReceived { channel_id: ChannelId, message_ids: Seq<MessageId>, from_peer: Seq<char> },
    InventoryRequested { channel_id: ChannelId, requesting_peer: Seq<char> },
}

impl View for NetworkEvent {
    type V = NetworkEventView;

    open spec fn view(&self) -> NetworkEventView {
        match *self {
            NetworkEvent::PeerConnected(peer) => NetworkEventView::PeerConnected(peer@),
            NetworkEvent::PeerDisconnected(peer) => NetworkEventView::PeerDisconnected(peer@),
            NetworkEvent::MessageReceived(message) => NetworkEventView::MessageReceived(message@),
            NetworkEvent::ListeningOn(address) => NetworkEventView::ListeningOn(address@),
            NetworkEvent::ConnectionFailed { address, error } => NetworkEventView::ConnectionFailed {
                address: address@,
                error: error@,
            },
            NetworkEvent::ConnectionDialing { address } => NetworkEventView::ConnectionDialing {
                address: address@,
            },
            NetworkEvent::ChannelAnnounced(channel) => NetworkEventView::ChannelAnnounced(channel@),
            NetworkEvent::ChannelStateReceived(channel) => NetworkEventView::ChannelStateReceived(
                channel@,
            ),
            NetworkEvent::ChannelUpdated(channel) => NetworkEventView::ChannelUpdated(channel@),
            NetworkEvent::ChannelStateRequested {
                channel_id,
                requesting_peer,
            } => NetworkEventView::ChannelStateRequested {
                channel_id,
                requesting_peer: requesting_peer@,
            },
            NetworkEvent::MessageRequested {
                channel_id,
                message_ids,
                requesting_peer,
            } => NetworkEventView::MessageRequested {
                channel_id,
                message_ids: message_ids@,
                requesting_peer: requesting_peer@,
            },
            NetworkEvent::MessagesReceived {
                channel_id,
                messages,
            } => NetworkEventView::MessagesReceived { channel_id, messages: views(messages@) },
            NetworkEvent::InventoryReceived {
                channel_id,
                message_ids,
                from_peer,
            } => NetworkEventView::InventoryReceived {
                channel_id,
                message_ids: message_ids@,
                from_peer: from_peer@,
            },
            NetworkEvent::InventoryRequested {
                channel_id,
                requesting_peer,
            } => NetworkEventView::InventoryRequested {
                channel_id,
                requesting_peer: requesting_peer@,
            },
        }
    }
}

/// A command that the application gives to the transport.
#[derive(Debug)]
pub enum NetworkCommand {
    /// Publish a chat message to all peers.
    BroadcastMessage(Message),
    /// Connect to the peer at an address.
    ConnectToPeer(String),
    /// Report the connected peers.
    ListPeers,
    /// Publish a new channel.
    AnnounceChannel(Channel),
    /// Ask the peers for the full state of a channel.
    RequestChannelState(ChannelId),
    /// Publish a change of a channel.
    BroadcastChannelUpdate(Channel),
    /// Publish the full state of a channel, in answer to a request for it.
    RespondWithChannelState(Channel),
    /// Ask the peers for messages by their identifiers.
    RequestMessages { channel_id: ChannelId, message_ids: Vec<MessageId> },
    /// Send messages in answer to a request.
    RespondWithMessages { channel_id: ChannelId, messages: Vec<Message> },
    /// Tell the peers which messages of a channel are held here. The
    /// identifiers stand in increasing order, each once.
    BroadcastInventory { channel_id: ChannelId, message_ids: Vec<MessageId> },
    /// Ask the peers which messages of a channel they hold.
    RequestInventory { channel_id: ChannelId },
}

/// A command as a mathematical value.
pub enum NetworkCommandView {
    BroadcastMessage(MessageView),
    ConnectToPeer(Seq<char>),
    ListPeers,
    AnnounceChannel(ChannelView),
    RequestChannelState(ChannelId),
    BroadcastChannelUpdate(ChannelView),
    RespondWithChannelState(ChannelView),
    RequestMessages { channel_id: ChannelId, message_ids: Seq<MessageId> },
    RespondWithMessages { channel_id: ChannelId, messages: Seq<MessageView> },
    BroadcastInventory { channel_id: ChannelId, message_ids: Seq<MessageId> },
    RequestInventory { channel_id: ChannelId },
}

impl View for NetworkCommand {
    type V = NetworkCommandView;

    open spec fn view(&self) -> NetworkCommandView {
        match *self {
            NetworkCommand::BroadcastMessage(message) => NetworkCommandView::BroadcastMessage(
                message@,
            ),
            NetworkCommand::ConnectToPeer(address) => NetworkCommandView::ConnectToPeer(address@),
            NetworkCommand::ListPeers => NetworkCommandView::ListPeers,
            NetworkCommand::AnnounceChannel(channel) => NetworkCommandView::AnnounceChannel(
                channel@,
            ),
            NetworkCommand::RequestChannelState(channel_id) => NetworkCommandView::RequestChannelState(
                channel_id,
            ),
            NetworkCommand::BroadcastChannelUpdate(
                channel,
            ) => NetworkCommandView::BroadcastChannelUpdate(channel@),
            NetworkCommand::RespondWithChannelState(
                channel,
            ) => NetworkCommandView::RespondWithChannelState(channel@),
            NetworkCommand::RequestMessages {
                channel_id,
                message_ids,
            } => NetworkCommandView::RequestMessages { channel_id, message_ids: message_ids@ },
            NetworkCommand::RespondWithMessages {
                channel_id,
                messages,
            } => NetworkCommandView::RespondWithMessages { channel_id, messages: views(messages@) },
            NetworkCommand::BroadcastInventory {
                channel_id,
                message_ids,
            } => NetworkCommandView::BroadcastInventory { channel_id, message_ids: message_ids@ },
            NetworkCommand::RequestInventory { channel_id } => NetworkCommandView::RequestInventory {
                channel_id,
            },
        }
    }
}

impl Clone for NetworkEvent {
    fn clone(&self) -> (copy: Self)
        ensures
            copy@ == self@,
    {
        match self {
            NetworkEvent::PeerConnected(peer) => NetworkEvent::PeerConnected(peer.clone()),
            NetworkEvent::PeerDisconnected(peer) => NetworkEvent::PeerDisconnected(peer.clone()),
            NetworkEvent::MessageReceived(message) => NetworkEvent::MessageReceived(
                message.clone(),
            ),
            NetworkEvent::ListeningOn(address) => NetworkEvent::ListeningOn(address.clone()),
            NetworkEvent::ConnectionFailed { address, error } => NetworkEvent::ConnectionFailed {
                address: address.clone(),
                error: error.clone(),
            },
            NetworkEvent::ConnectionDialing { address } => NetworkEvent::ConnectionDialing {
                address: address.clone(),
            },
            NetworkEvent::ChannelAnnounced(channel) => NetworkEvent::ChannelAnnounced(
                channel.clone(),
            ),
            NetworkEvent::ChannelStateReceived(channel) => NetworkEvent::ChannelStateReceived(
                channel.clone(),
            ),
            NetworkEvent::ChannelUpdated(channel) => NetworkEvent::ChannelUpdated(channel.clone()),
            NetworkEvent::ChannelStateRequested {
                channel_id,
                requesting_peer,
            } => NetworkEvent::ChannelStateRequested {
                channel_id: *channel_id,
                requesting_peer: requesting_peer.clone(),
            },
            NetworkEvent::MessageRequested {
                channel_id,
                message_ids,
                requesting_peer,
            } => NetworkEvent::MessageRequested {
                channel_id: *channel_id,
                message_ids: MessageId::clone_all(message_ids),
                requesting_peer: requesting_peer.clone(),
            },
            NetworkEvent::MessagesReceived { channel_id, messages } => NetworkEvent::MessagesReceived {
                channel_id: *channel_id,
                messages: clone_messages(messages),
            },
            NetworkEvent::InventoryReceived {
                channel_id,
                message_ids,
                from_peer,
            } => NetworkEvent::InventoryReceived {
                channel_id: *channel_id,
                message_ids: MessageId::clone_all(message_ids),
                from_peer: from_peer.clone(),
            },
            NetworkEvent::InventoryRequested {
                channel_id,
                requesting_peer,
            } => NetworkEvent::InventoryRequested {
                channel_id: *channel_id,
                requesting_peer: requesting_peer.clone(),
            },
        }
    }
}

impl Clone for NetworkCommand {
    fn clone(&self) -> (copy: Self)
        ensures
            copy@ == self@,
    {
        match self {
            NetworkCommand::BroadcastMessage(message) => NetworkCommand::BroadcastMessage(
                message.clone(),
            ),
            NetworkCommand::ConnectToPeer(address) => NetworkCommand::ConnectToPeer(
                address.clone(),
            ),
            NetworkCommand::ListPeers => NetworkCommand::ListPeers,
            NetworkCommand::AnnounceChannel(channel) => NetworkCommand::AnnounceChannel(
                channel.clone(),
            ),
            NetworkCommand::RequestChannelState(channel_id) => NetworkCommand::RequestChannelState(
                *channel_id,
            ),
            NetworkCommand::BroadcastChannelUpdate(channel) => NetworkCommand::BroadcastChannelUpdate(
                channel.clone(),
            ),
            NetworkCommand::RespondWithChannelState(
                channel,
            ) => NetworkCommand::RespondWithChannelState(channel.clone()),
            NetworkCommand::RequestMessages { channel_id, message_ids } => NetworkCommand::RequestMessages {
                channel_id: *channel_id,
                message_ids: MessageId::clone_all(message_ids),
            },
            NetworkCommand::RespondWithMessages {
                channel_id,
                messages,
            } => NetworkCommand::RespondWithMessages {
                channel_id: *channel_id,
                messages: clone_messages(messages),
            },
            NetworkCommand::BroadcastInventory {
                channel_id,
                message_ids,
            } => NetworkCommand::BroadcastInventory {
                channel_id: *channel_id,
                message_ids: MessageId::clone_all(message_ids),
            },
            NetworkCommand::RequestInventory { channel_id } => NetworkCommand::RequestInventory {
                channel_id: *channel_id,
            },
        }
    }
}

} // verus!
