//! Messages.

use vstd::prelude::*;
use crate::crdt::hlc::epoch_nanos;
use crate::ids::{ChannelId, MessageId, PeerId};
use crate::outside::is_version_seven;
use crate::vector_clock::VectorClock;

verus! {

/// What a message says. The replication core never looks inside.
#[derive(Debug)]
pub struct MessageContent {
    pub text: String,
}

impl Clone for MessageContent {
    fn clone(&self) -> (copy: Self)
        ensures
            copy.text@ == self.text@,
    {
        MessageContent { text: self.text.clone() }
    }
}

/// A message, with what places it in the causal order of its channel. Once
/// made, a message does not change.
#[derive(Debug)]
pub struct Message {
    pub id: MessageId,
    pub channel_id: ChannelId,
    pub author: PeerId,
    pub content: MessageContent,
    /// The author's vector clock when the message was made, the author's own
    /// event counted.
    pub vector_clock: VectorClock,
    /// The author's Lamport counter for this message.
    pub lamport_timestamp: u64,
    /// The messages that were the heads of the channel when this one was
    /// made.
    pub parent_hashes: Vec<MessageId>,
    /// When the message was made, in nanoseconds since the Unix epoch.
    pub created_at: u128,
}

/// A message as a mathematical value.
pub struct MessageView {
    pub id: MessageId,
    pub channel_id: ChannelId,
    pub author: PeerId,
    pub text: Seq<char>,
    pub vector_clock: Map<u128, u64>,
    pub lamport_timestamp: u64,
    pub parent_hashes: Seq<MessageId>,
    pub created_at: u128,
}

impl View for Message {
    type V = MessageView;

    open spec fn view(&self) -> MessageView {
        MessageView {
            id: self.id,
            channel_id: self.channel_id,
            author: self.author,
            text: self.content.text@,
            vector_clock: self.vector_clock@,
            lamport_timestamp: self.lamport_timestamp,
            parent_hashes: self.parent_hashes@,
            created_at: self.created_at,
        }
    }
}

/// The messages of `list` as mathematical values.
pub open spec fn views(list: Seq<Message>) -> Seq<MessageView> {
    Seq::new(list.len(), |i: int| list[i]@)
}

impl Message {
    /// A new message without parents, under a new identifier and stamped
    /// with the present time.
    pub fn new(
        channel_id: ChannelId,
        author: PeerId,
        content: MessageContent,
        vector_clock: VectorClock,
        lamport_timestamp: u64,
    ) -> (message: Self)
        ensures
            is_version_seven(message@.id.0),
            message@.channel_id == channel_id,
            message@.author == author,
            message@.text == content.text@,
            message@.vector_clock == vector_clock@,
            message@.lamport_timestamp == lamport_timestamp,
            message@.parent_hashes == Seq::<MessageId>::empty(),
    {
        Message {
            id: MessageId::new(),
            channel_id,
            author,
            content,
            vector_clock,
            lamport_timestamp,
            parent_hashes: Vec::new(),
            created_at: epoch_nanos(),
        }
    }
}

impl Clone for Message {
    fn clone(&self) -> (copy: Self)
        ensures
            copy@ == self@,
    {
        Message {
            id: self.id,
            channel_id: self.channel_id,
            author: self.author,
            content: self.content.clone(),
            vector_clock: self.vector_clock.clone(),
            lamport_timestamp: self.lamport_timestamp,
            parent_hashes: self.parent_hashes.clone(),
            created_at: self.created_at,
        }
    }
}

/// A copy of each message of `list`, in the same order.
pub fn clone_messages(list: &Vec<Message>) -> (copy: Vec<Message>)
    ensures
        views(copy@) == views(list@),
{
    let mut copy: Vec<Message> = Vec::new();
    let mut i: usize = 0;
    while i < list.len()
        invariant
            i <= list.len(),
            copy@.len() == i,
            forall|j: int| 0 <= j < i ==> (#[trigger] copy@[j])@ == list@[j]@,
        decreases list.len() - i,
    {
        copy.push(list[i].clone());
        i = i + 1;
    }
    assert(views(copy@) =~= views(list@));
    copy
}

} // verus!
