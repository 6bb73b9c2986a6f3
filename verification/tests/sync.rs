use burrow::channel::{Channel, ChannelType};
use burrow::ids::{ChannelId, MessageId, PeerId};
use burrow::message::{Message, MessageContent};
use burrow::network::{NetworkCommand, NetworkEvent};
use burrow::notify::{Notification, NotificationLevel};
use burrow::protocol::NetworkMessage;
use burrow::sync::{placeholder_name, Admission, ChannelChange, Replica};
use burrow::vector_clock::VectorClock;

fn plain(id: u128, channel: u128, lamport: u64, parents: &[u128]) -> Message {
    Message {
        id: MessageId(id),
        channel_id: ChannelId(channel),
        author: PeerId(1),
        content: MessageContent { text: format!("m{}", id) },
        vector_clock: VectorClock::new(),
        lamport_timestamp: lamport,
        parent_hashes: parents.iter().map(|p| MessageId(*p)).collect(),
        created_at: 0,
    }
}

fn texts(messages: &[Message]) -> Vec<String> {
    messages.iter().map(|m| m.content.text.clone()).collect()
}

fn sorted_heads(replica: &Replica, channel: ChannelId) -> Vec<MessageId> {
    let mut heads = replica.dag().get_heads(&channel);
    heads.sort();
    heads
}

/// Writes a message at `replica`, admits it there, and hands back a copy
/// as the other peers receive it.
fn send(replica: &mut Replica, channel: ChannelId, text: &str) -> Message {
    let message = replica.compose(channel, text.to_string()).unwrap();
    match replica.publish(message) {
        NetworkCommand::BroadcastMessage(sent) => sent,
        other => panic!("unexpected command {:?}", other),
    }
}

#[test]
fn replica_starts_with_its_own_event_counted() {
    let me = PeerId(3);
    let replica = Replica::new(me);
    assert_eq!(replica.peer_id(), me);
    assert!(replica.channels().is_empty());
    assert_eq!(replica.lamport_clock(), 0);
    assert_eq!(replica.vector_clock().get(&me), 1);
    assert!(replica.dag().all_message_ids().is_empty());
    assert!(replica.on_peer_connected().is_empty());
}

#[test]
fn linear_chain() {
    let alice = PeerId::new();
    let mut replica = Replica::new(alice);
    let channel = Channel::new("C".to_string(), alice);
    let c = channel.id;
    replica.add_channel(channel);

    let a = send(&mut replica, c, "a");
    assert!(a.parent_hashes.is_empty());
    let b = send(&mut replica, c, "b");
    assert_eq!(b.parent_hashes, vec![a.id]);
    let third = send(&mut replica, c, "c");
    assert_eq!(third.parent_hashes, vec![b.id]);

    assert_eq!(replica.dag().get_heads(&c), vec![third.id]);
    let ordered = replica.dag().get_ordered_messages(&c);
    assert_eq!(texts(&ordered), vec!["a", "b", "c"]);
    let lamports: Vec<u64> = ordered.iter().map(|m| m.lamport_timestamp).collect();
    assert_eq!(lamports, vec![1, 2, 3]);
    assert_eq!(replica.lamport_clock(), 3);
    assert_eq!(replica.vector_clock().get(&alice), 4);
    assert_eq!(third.vector_clock.get(&alice), 4);
    assert_eq!(third.author, alice);
}

#[test]
fn concurrent_divergence_and_merge() {
    let author = PeerId(1);
    let c = ChannelId(1);
    let a = plain(100, 1, 1, &[]);
    let b = plain(300, 1, 2, &[100]);
    let other = plain(200, 1, 2, &[100]);

    let mut alice = Replica::new(author);
    let mut bob = Replica::new(PeerId(2));
    assert_eq!(alice.receive_message(a.clone()), Admission::Admitted);
    assert_eq!(bob.receive_message(a.clone()), Admission::Admitted);
    assert_eq!(alice.receive_message(b.clone()), Admission::Admitted);
    assert_eq!(bob.receive_message(other.clone()), Admission::Admitted);
    assert_eq!(alice.receive_message(other.clone()), Admission::Admitted);
    assert_eq!(bob.receive_message(b.clone()), Admission::Admitted);

    assert_eq!(sorted_heads(&alice, c), vec![MessageId(200), MessageId(300)]);
    assert_eq!(sorted_heads(&bob, c), vec![MessageId(200), MessageId(300)]);

    let d = plain(400, 1, 3, &[300, 200]);
    assert_eq!(alice.receive_message(d.clone()), Admission::Admitted);
    assert_eq!(bob.receive_message(d.clone()), Admission::Admitted);
    for replica in [&alice, &bob] {
        assert_eq!(sorted_heads(replica, c), vec![MessageId(400)]);
        let ordered: Vec<u128> =
            replica.dag().get_ordered_messages(&c).iter().map(|m| m.id.0).collect();
        assert_eq!(ordered, vec![100, 200, 300, 400]);
    }
}

#[test]
fn out_of_order_arrival_triggers_gossip() {
    let c = ChannelId(1);
    let a = plain(1, 1, 1, &[]);
    let b = plain(2, 1, 2, &[1]);
    let third = plain(3, 1, 3, &[2]);

    let mut alice = Replica::new(PeerId(1));
    for message in [a.clone(), b.clone(), third.clone()] {
        assert_eq!(alice.receive_message(message), Admission::Admitted);
    }
    let mut bob = Replica::new(PeerId(2));
    assert_eq!(
        bob.receive_message(third.clone()),
        Admission::Waiting { missing_parent: MessageId(2) }
    );
    assert!(bob.dag().get_ordered_messages(&c).is_empty());
    assert!(!bob.dag().has_message(&MessageId(3)));
    assert!(bob.holds(&MessageId(3)));
    assert!(!bob.holds(&MessageId(2)));
    assert_eq!(bob.waiting().len(), 1);
    assert_eq!(bob.waiting()[0].id, MessageId(3));
    // The same frame once more changes nothing.
    assert_eq!(bob.receive_message(third.clone()), Admission::Held);
    assert_eq!(bob.waiting().len(), 1);

    // Bob asks for inventories; Alice answers with what her repository holds.
    let inventory =
        alice.answer_inventory_request(c, &vec![MessageId(3), MessageId(1), MessageId(2)]);
    let theirs = match inventory {
        NetworkCommand::BroadcastInventory { channel_id, message_ids } => {
            assert_eq!(channel_id, c);
            assert_eq!(message_ids, vec![MessageId(1), MessageId(2), MessageId(3)]);
            message_ids
        }
        other => panic!("unexpected command {:?}", other),
    };
    // Bob holds the third message, waiting: he asks for the two he lacks.
    let wanted = match bob.receive_inventory(c, &theirs) {
        Some(NetworkCommand::RequestMessages { channel_id, message_ids }) => {
            assert_eq!(channel_id, c);
            message_ids
        }
        other => panic!("unexpected command {:?}", other),
    };
    assert_eq!(wanted, vec![MessageId(1), MessageId(2)]);

    let found: Vec<Message> = vec![a.clone(), b.clone()];
    let answer = match alice.answer_message_request(c, found) {
        Some(NetworkCommand::RespondWithMessages { messages, .. }) => messages,
        other => panic!("unexpected command {:?}", other),
    };
    assert!(bob.receive_messages(c, answer).is_none());
    let ordered: Vec<u128> = bob.dag().get_ordered_messages(&c).iter().map(|m| m.id.0).collect();
    assert_eq!(ordered, vec![1, 2, 3]);
    assert_eq!(bob.dag().get_heads(&c), vec![MessageId(3)]);
    assert!(bob.waiting().is_empty());
    assert!(bob.receive_inventory(c, &theirs).is_none());
}

#[test]
fn a_chain_that_arrives_backwards_is_admitted_with_its_root() {
    let c = ChannelId(1);
    let mut replica = Replica::new(PeerId(2));
    assert_eq!(
        replica.receive_message(plain(4, 1, 4, &[3, 2])),
        Admission::Waiting { missing_parent: MessageId(3) }
    );
    assert_eq!(
        replica.receive_message(plain(3, 1, 3, &[2])),
        Admission::Waiting { missing_parent: MessageId(2) }
    );
    assert_eq!(
        replica.receive_message(plain(2, 1, 2, &[1])),
        Admission::Waiting { missing_parent: MessageId(1) }
    );
    assert_eq!(replica.waiting().len(), 3);
    assert!(replica.dag().all_message_ids().is_empty());
    assert_eq!(replica.receive_message(plain(1, 1, 1, &[])), Admission::Admitted);
    assert!(replica.waiting().is_empty());
    let ordered: Vec<u128> =
        replica.dag().get_ordered_messages(&c).iter().map(|m| m.id.0).collect();
    assert_eq!(ordered, vec![1, 2, 3, 4]);
    assert_eq!(replica.dag().get_heads(&c), vec![MessageId(4)]);
}

#[test]
fn what_waits_for_another_parent_goes_on_waiting() {
    let mut replica = Replica::new(PeerId(2));
    replica.receive_message(plain(5, 1, 5, &[1, 9]));
    replica.receive_message(plain(6, 1, 6, &[1]));
    assert_eq!(replica.receive_message(plain(1, 1, 1, &[])), Admission::Admitted);
    assert!(replica.dag().has_message(&MessageId(6)));
    assert!(!replica.dag().has_message(&MessageId(5)));
    assert_eq!(replica.waiting().len(), 1);
    assert_eq!(replica.waiting()[0].id, MessageId(5));
    match replica.receive_messages(ChannelId(1), vec![]) {
        Some(NetworkCommand::RequestMessages { message_ids, .. }) => {
            assert_eq!(message_ids, vec![MessageId(9)]);
        }
        other => panic!("unexpected command {:?}", other),
    }
}

#[test]
fn batch_with_a_gap_asks_for_the_missing_parent() {
    // The repository keeps messages that the graph has not admitted: on
    // restart they are loaded in bulk, and the gaps are asked for.
    let c = ChannelId(1);
    let mut replica = Replica::new(PeerId(2));
    replica.load_messages(vec![plain(3, 1, 3, &[2])]);
    match replica.receive_messages(c, vec![plain(5, 1, 5, &[4])]) {
        Some(NetworkCommand::RequestMessages { channel_id, message_ids }) => {
            assert_eq!(channel_id, c);
            assert_eq!(message_ids, vec![MessageId(2), MessageId(4)]);
        }
        other => panic!("unexpected command {:?}", other),
    }
    assert!(!replica.dag().has_message(&MessageId(5)));
    assert!(replica.holds(&MessageId(5)));
    // Replaying a message within a batch changes nothing.
    let batch = vec![plain(2, 1, 2, &[]), plain(2, 1, 2, &[])];
    match replica.receive_messages(c, batch) {
        Some(NetworkCommand::RequestMessages { message_ids, .. }) => {
            assert_eq!(message_ids, vec![MessageId(4)]);
        }
        other => panic!("unexpected command {:?}", other),
    }
    assert!(replica.dag().has_message(&MessageId(2)));
    assert_eq!(replica.dag().all_message_ids().len(), 2);
    assert!(replica.receive_messages(c, vec![plain(4, 1, 4, &[])]).is_none());
    assert!(replica.dag().has_message(&MessageId(5)));
    assert!(replica.waiting().is_empty());
}

#[test]
fn received_message_moves_the_clocks() {
    let me = PeerId(1);
    let author = PeerId(2);
    let mut replica = Replica::new(me);
    let mut message = plain(1, 1, 7, &[]);
    message.vector_clock.increment(author);
    message.vector_clock.increment(author);
    assert_eq!(replica.receive_message(message.clone()), Admission::Admitted);
    assert_eq!(replica.lamport_clock(), 8);
    assert_eq!(replica.vector_clock().get(&author), 2);
    assert_eq!(replica.vector_clock().get(&me), 1);
    // A replayed frame is not admitted twice.
    assert_eq!(replica.receive_message(message), Admission::Held);
    assert_eq!(replica.lamport_clock(), 9);
    // A smaller Lamport timestamp still moves the counter by one.
    assert_eq!(replica.receive_message(plain(2, 1, 3, &[1])), Admission::Admitted);
    assert_eq!(replica.lamport_clock(), 10);
}

#[test]
fn message_with_exhausted_lamport_counter_is_discarded() {
    let mut replica = Replica::new(PeerId(1));
    assert_eq!(replica.receive_message(plain(1, 1, u64::MAX, &[])), Admission::Discarded);
    assert_eq!(replica.lamport_clock(), 0);
    assert!(!replica.dag().has_message(&MessageId(1)));
    assert_eq!(replica.receive_message(plain(1, 1, u64::MAX - 1, &[])), Admission::Admitted);
    assert_eq!(replica.lamport_clock(), u64::MAX);
    let channel = Channel::new("c".to_string(), PeerId(1));
    let id = channel.id;
    replica.add_channel(channel);
    assert!(replica.compose(id, "late".to_string()).is_none());
    assert_eq!(replica.lamport_clock(), u64::MAX);
}

#[test]
fn compose_needs_a_known_channel() {
    let mut replica = Replica::new(PeerId(1));
    assert!(replica.compose(ChannelId(5), "x".to_string()).is_none());
    assert_eq!(replica.lamport_clock(), 0);
    assert_eq!(replica.vector_clock().get(&PeerId(1)), 1);
}

#[test]
fn peer_connected_asks_for_every_channel() {
    let me = PeerId(1);
    let mut replica = Replica::new(me);
    let first = Channel::new("one".to_string(), me);
    let second = Channel::new("two".to_string(), me);
    let ids = vec![first.id, second.id];
    replica.set_channels(vec![first, second]);
    let asked: Vec<ChannelId> = replica
        .on_peer_connected()
        .into_iter()
        .map(|command| match command {
            NetworkCommand::RequestInventory { channel_id } => channel_id,
            other => panic!("unexpected command {:?}", other),
        })
        .collect();
    assert_eq!(asked, ids);
    assert_eq!(replica.find_channel(ids[1]), Some(1));
    assert_eq!(replica.find_channel(ChannelId(0)), None);
}

#[test]
fn placeholder_name_is_the_prefix_of_the_channel_id() {
    let id = ChannelId(0x0192_abcd_0000_7000_8000_0000_0000_0001);
    assert_eq!(placeholder_name(id), "channel-0192abcd");
    assert_eq!(placeholder_name(ChannelId(0)), "channel-00000000");
    assert_eq!(placeholder_name(ChannelId(u128::MAX)), "channel-ffffffff");
}

#[test]
fn placeholder_channel_resolution() {
    let alice = PeerId::new();
    let bob = PeerId::new();
    let mut at_alice = Replica::new(alice);
    let mut at_bob = Replica::new(bob);
    let channel = Channel::new("team".to_string(), alice);
    let c = channel.id;
    at_alice.add_channel(channel.clone());
    let message = send(&mut at_alice, c, "hello");

    // Bob has never heard of the channel.
    let placeholder = at_bob.placeholder_for(&message).unwrap();
    assert_eq!(placeholder.id, c);
    assert_eq!(placeholder.get_name(), &placeholder_name(c));
    assert_eq!(placeholder.channel_type, ChannelType::Group);
    assert!(placeholder.get_members().is_empty());
    assert_eq!(placeholder.hlc.latest().peer_id, alice);
    assert_eq!(placeholder.name.timestamp(), burrow::crdt::Timestamp::new(0, 0, alice));
    at_bob.add_channel(placeholder);
    assert!(at_bob.placeholder_for(&message).is_none());
    assert_eq!(at_bob.receive_message(message.clone()), Admission::Admitted);
    assert_eq!(texts(&at_bob.dag().get_ordered_messages(&c)), vec!["hello"]);

    // Alice announces the channel afterwards: the provisional name gives way.
    let announced = at_alice.channels()[0].clone();
    assert_eq!(at_bob.receive_channel(announced), ChannelChange::Merged(0));
    let known = &at_bob.channels()[0];
    assert_eq!(known.id, c);
    assert_eq!(known.get_name(), "team");
    assert_eq!(known.get_members(), vec![alice]);
    assert_eq!(known.name.timestamp(), at_alice.channels()[0].name.timestamp());
}

#[test]
fn unknown_channel_state_is_recorded_as_it_is() {
    let mut replica = Replica::new(PeerId(1));
    let channel = Channel::new("new".to_string(), PeerId(2));
    let id = channel.id;
    assert_eq!(replica.receive_channel(channel), ChannelChange::Added(0));
    assert_eq!(replica.channels().len(), 1);
    assert_eq!(replica.channels()[0].id, id);
    assert_eq!(replica.channels()[0].get_name(), "new");
    assert_eq!(replica.channels()[0].get_members(), vec![PeerId(2)]);
}

#[test]
fn channel_state_with_exhausted_clock_is_discarded() {
    let creator = PeerId(1);
    let mut replica = Replica::new(creator);
    let channel = Channel::new("c".to_string(), creator);
    replica.add_channel(channel.clone());
    let mut remote = channel.clone();
    remote.hlc.update_at(burrow::crdt::Timestamp::new(u64::MAX, u64::MAX - 1, PeerId(9)), 0);
    assert_eq!(remote.hlc.latest().logical, u64::MAX);
    remote.add_member(PeerId(5));
    assert_eq!(replica.receive_channel(remote), ChannelChange::Discarded);
    assert_eq!(replica.channels()[0].get_members(), vec![creator]);
}

#[test]
fn state_request_is_answered_only_for_known_channels() {
    let me = PeerId(1);
    let mut replica = Replica::new(me);
    let channel = Channel::new("known".to_string(), me);
    let id = channel.id;
    replica.add_channel(channel);
    match replica.answer_state_request(id) {
        Some(NetworkCommand::RespondWithChannelState(channel)) => {
            assert_eq!(channel.id, id);
            assert_eq!(channel.get_name(), "known");
            assert_eq!(channel.get_members(), vec![me]);
            match NetworkMessage::from_command(NetworkCommand::RespondWithChannelState(channel)) {
                Some(NetworkMessage::ChannelStateResponse { channel }) => {
                    assert_eq!(channel.id, id)
                }
                other => panic!("unexpected frame {:?}", other),
            }
        }
        other => panic!("unexpected command {:?}", other),
    }
    assert!(replica.answer_state_request(ChannelId(0)).is_none());
}

#[test]
fn frames_become_events() {
    let from = "12D3KooWpeer".to_string();
    match NetworkMessage::ChatMessage(plain(1, 1, 1, &[])).into_event(from.clone()) {
        Some(NetworkEvent::MessageReceived(message)) => assert_eq!(message.id, MessageId(1)),
        other => panic!("unexpected event {:?}", other),
    }
    match (NetworkMessage::ChannelStateRequest { channel_id: ChannelId(2) }).into_event(from.clone()) {
        Some(NetworkEvent::ChannelStateRequested { channel_id, requesting_peer }) => {
            assert_eq!(channel_id, ChannelId(2));
            assert_eq!(requesting_peer, from);
        }
        other => panic!("unexpected event {:?}", other),
    }
    let ids = vec![MessageId(4), MessageId(5)];
    match (NetworkMessage::MessageRequest { channel_id: ChannelId(2), message_ids: ids.clone() })
        .into_event(from.clone())
    {
        Some(NetworkEvent::MessageRequested { channel_id, message_ids, requesting_peer }) => {
            assert_eq!(channel_id, ChannelId(2));
            assert_eq!(message_ids, ids);
            assert_eq!(requesting_peer, from);
        }
        other => panic!("unexpected event {:?}", other),
    }
    match (NetworkMessage::MessageInventory { channel_id: ChannelId(2), message_ids: ids.clone() })
        .into_event(from.clone())
    {
        Some(NetworkEvent::InventoryReceived { channel_id, message_ids, from_peer }) => {
            assert_eq!(channel_id, ChannelId(2));
            assert_eq!(message_ids, ids);
            assert_eq!(from_peer, from);
        }
        other => panic!("unexpected event {:?}", other),
    }
    match (NetworkMessage::InventoryRequest { channel_id: ChannelId(3) }).into_event(from.clone()) {
        Some(NetworkEvent::InventoryRequested { channel_id, requesting_peer }) => {
            assert_eq!(channel_id, ChannelId(3));
            assert_eq!(requesting_peer, from);
        }
        other => panic!("unexpected event {:?}", other),
    }
    match (NetworkMessage::MessageResponse {
        channel_id: ChannelId(3),
        messages: vec![plain(8, 3, 1, &[])],
    })
    .into_event(from.clone())
    {
        Some(NetworkEvent::MessagesReceived { channel_id, messages }) => {
            assert_eq!(channel_id, ChannelId(3));
            assert_eq!(messages.len(), 1);
        }
        other => panic!("unexpected event {:?}", other),
    }
    let channel = Channel::new("c".to_string(), PeerId(1));
    let id = channel.id;
    match (NetworkMessage::ChannelAnnounce { channel: channel.clone() }).into_event(from.clone()) {
        Some(NetworkEvent::ChannelAnnounced(c)) => assert_eq!(c.id, id),
        other => panic!("unexpected event {:?}", other),
    }
    match (NetworkMessage::ChannelStateResponse { channel: channel.clone() }).into_event(from.clone())
    {
        Some(NetworkEvent::ChannelStateReceived(c)) => assert_eq!(c.id, id),
        other => panic!("unexpected event {:?}", other),
    }
    match (NetworkMessage::ChannelUpdate { channel }).into_event(from.clone()) {
        Some(NetworkEvent::ChannelUpdated(c)) => assert_eq!(c.id, id),
        other => panic!("unexpected event {:?}", other),
    }
    assert!((NetworkMessage::SyncRequest { channel_id: ChannelId(1), since_timestamp: 0 })
        .into_event(from.clone())
        .is_none());
    assert!((NetworkMessage::SyncResponse { channel_id: ChannelId(1), messages: vec![] })
        .into_event(from.clone())
        .is_none());
    assert!((NetworkMessage::PeerAnnounce { peer_id: PeerId(1), listen_addresses: vec![] })
        .into_event(from)
        .is_none());
}

#[test]
fn commands_become_frames() {
    match NetworkMessage::from_command(NetworkCommand::BroadcastMessage(plain(1, 1, 1, &[]))) {
        Some(NetworkMessage::ChatMessage(message)) => assert_eq!(message.id, MessageId(1)),
        other => panic!("unexpected frame {:?}", other),
    }
    match NetworkMessage::from_command(NetworkCommand::RequestChannelState(ChannelId(6))) {
        Some(NetworkMessage::ChannelStateRequest { channel_id }) => {
            assert_eq!(channel_id, ChannelId(6))
        }
        other => panic!("unexpected frame {:?}", other),
    }
    let ids = vec![MessageId(4)];
    match NetworkMessage::from_command(NetworkCommand::RequestMessages {
        channel_id: ChannelId(6),
        message_ids: ids.clone(),
    }) {
        Some(NetworkMessage::MessageRequest { channel_id, message_ids }) => {
            assert_eq!(channel_id, ChannelId(6));
            assert_eq!(message_ids, ids);
        }
        other => panic!("unexpected frame {:?}", other),
    }
    match NetworkMessage::from_command(NetworkCommand::BroadcastInventory {
        channel_id: ChannelId(6),
        message_ids: ids.clone(),
    }) {
        Some(NetworkMessage::MessageInventory { channel_id, message_ids }) => {
            assert_eq!(channel_id, ChannelId(6));
            assert_eq!(message_ids, ids);
        }
        other => panic!("unexpected frame {:?}", other),
    }
    match NetworkMessage::from_command(NetworkCommand::RequestInventory { channel_id: ChannelId(6) })
    {
        Some(NetworkMessage::InventoryRequest { channel_id }) => assert_eq!(channel_id, ChannelId(6)),
        other => panic!("unexpected frame {:?}", other),
    }
    match NetworkMessage::from_command(NetworkCommand::RespondWithMessages {
        channel_id: ChannelId(6),
        messages: vec![plain(2, 6, 1, &[])],
    }) {
        Some(NetworkMessage::MessageResponse { channel_id, messages }) => {
            assert_eq!(channel_id, ChannelId(6));
            assert_eq!(messages.len(), 1);
        }
        other => panic!("unexpected frame {:?}", other),
    }
    let channel = Channel::new("c".to_string(), PeerId(1));
    let id = channel.id;
    match NetworkMessage::from_command(NetworkCommand::AnnounceChannel(channel.clone())) {
        Some(NetworkMessage::ChannelAnnounce { channel }) => assert_eq!(channel.id, id),
        other => panic!("unexpected frame {:?}", other),
    }
    match NetworkMessage::from_command(NetworkCommand::BroadcastChannelUpdate(channel)) {
        Some(NetworkMessage::ChannelUpdate { channel }) => assert_eq!(channel.id, id),
        other => panic!("unexpected frame {:?}", other),
    }
    assert!(NetworkMessage::from_command(NetworkCommand::ListPeers).is_none());
    assert!(NetworkMessage::from_command(NetworkCommand::ConnectToPeer("/ip4/1.2.3.4/tcp/9".to_string()))
        .is_none());
}

#[test]
fn notification_lapses_after_five_seconds() {
    assert!(!Notification::expired_after(0));
    assert!(!Notification::expired_after(4_999_999_999));
    assert!(!Notification::expired_after(5_000_000_000));
    assert!(Notification::expired_after(5_000_000_001));
    let notification = Notification::new("Connected".to_string(), NotificationLevel::Success);
    assert_eq!(notification.message, "Connected");
    assert_eq!(notification.level, NotificationLevel::Success);
    assert!(!notification.is_expired());
    let copy = notification.clone();
    assert_eq!(copy.timestamp, notification.timestamp);
    assert_eq!(copy.message, "Connected");
}
