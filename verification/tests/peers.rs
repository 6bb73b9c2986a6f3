use burrow::channel::{Channel, ChannelType};
use burrow::crdt::{HybridLogicalClock, Timestamp};
use burrow::ids::{ChannelId, MessageId, PeerId};
use burrow::network::{NetworkCommand, NetworkEvent};
use burrow::notify::{short_peer_name, Notification, NotificationLevel};
use burrow::peer::PeerManager;
use burrow::protocol::NetworkMessage;
use burrow::sync::Replica;
use burrow::vector_clock::VectorClock;

#[test]
fn peer_manager_starts_empty() {
    let manager = PeerManager::new();
    assert_eq!(manager.peer_count(), 0);
    assert!(manager.get_all_peers().is_empty());
    assert!(manager.get_peer(&"anyone".to_string()).is_none());
    assert_eq!(PeerManager::default().peer_count(), 0);
}

#[test]
fn peer_manager_adds_and_replaces() {
    let mut manager = PeerManager::new();
    let alice = "12D3KooWAlice".to_string();
    let bob = "12D3KooWBob".to_string();
    manager.add_peer(alice.clone(), None);
    manager.add_peer(bob.clone(), Some("/ip4/10.0.0.2/tcp/9000".to_string()));
    assert_eq!(manager.peer_count(), 2);
    let info = manager.get_peer(&alice).unwrap();
    assert_eq!(info.peer_id, alice);
    assert!(info.addresses.is_empty());
    assert_eq!(info.connected_at, info.last_seen);
    assert!(info.connected_at > 1_600_000_000_000_000_000);
    let info = manager.get_peer(&bob).unwrap();
    assert_eq!(info.addresses, vec!["/ip4/10.0.0.2/tcp/9000".to_string()]);

    manager.add_peer(alice.clone(), Some("/ip4/10.0.0.1/tcp/9000".to_string()));
    assert_eq!(manager.peer_count(), 2);
    let info = manager.get_peer(&alice).unwrap();
    assert_eq!(info.addresses, vec!["/ip4/10.0.0.1/tcp/9000".to_string()]);
    let mut names: Vec<String> =
        manager.get_all_peers().iter().map(|info| info.peer_id.clone()).collect();
    names.sort();
    assert_eq!(names, vec![alice, bob]);
}

#[test]
fn peer_manager_removes() {
    let mut manager = PeerManager::new();
    let alice = "alice".to_string();
    let bob = "bob".to_string();
    manager.add_peer(alice.clone(), None);
    manager.add_peer(bob.clone(), None);
    manager.remove_peer(&"carol".to_string());
    assert_eq!(manager.peer_count(), 2);
    manager.remove_peer(&alice);
    assert_eq!(manager.peer_count(), 1);
    assert!(manager.get_peer(&alice).is_none());
    assert!(manager.get_peer(&bob).is_some());
    manager.remove_peer(&alice);
    assert_eq!(manager.peer_count(), 1);
}

#[test]
fn peer_manager_updates_last_seen_only() {
    let mut manager = PeerManager::new();
    let alice = "alice".to_string();
    manager.add_peer(alice.clone(), Some("/ip4/1.1.1.1/tcp/1".to_string()));
    let before = manager.get_peer(&alice).unwrap();
    let connected_at = before.connected_at;
    let first_seen = before.last_seen;
    manager.update_last_seen(&alice);
    let after = manager.get_peer(&alice).unwrap();
    assert_eq!(after.connected_at, connected_at);
    assert!(after.last_seen >= first_seen);
    assert_eq!(after.addresses, vec!["/ip4/1.1.1.1/tcp/1".to_string()]);
    manager.update_last_seen(&"bob".to_string());
    assert_eq!(manager.peer_count(), 1);
}

#[test]
fn short_peer_name_keeps_six_characters_at_each_end() {
    assert_eq!(short_peer_name("abcdefghijklm"), "abcdef...hijklm");
    assert_eq!(short_peer_name("abcdefghijkl"), "abcdefghijkl");
    assert_eq!(short_peer_name(""), "");
    assert_eq!(
        short_peer_name("12D3KooWQYhTNQdmr3ArTeUHRYzFg94BKyTkoWBDWez9kSCVe2Xo"),
        "12D3Ko...CVe2Xo"
    );
}

#[test]
fn notifications_for_events() {
    let connected = NetworkEvent::PeerConnected("12D3KooWQYhTNQdmr3ArTeUH".to_string());
    let notice = Notification::for_event(&connected).unwrap();
    assert_eq!(notice.message, "Connected to peer 12D3Ko...ArTeUH");
    assert_eq!(notice.level, NotificationLevel::Success);

    let dialing = NetworkEvent::ConnectionDialing { address: "/ip4/1.2.3.4/tcp/9".to_string() };
    let notice = Notification::for_event(&dialing).unwrap();
    assert_eq!(notice.message, "Connecting to /ip4/1.2.3.4/tcp/9...");
    assert_eq!(notice.level, NotificationLevel::Info);

    let failed = NetworkEvent::ConnectionFailed {
        address: "/ip4/1.2.3.4/tcp/9".to_string(),
        error: "refused".to_string(),
    };
    let notice = Notification::for_event(&failed).unwrap();
    assert_eq!(notice.message, "Connection failed to /ip4/1.2.3.4/tcp/9: refused");
    assert_eq!(notice.level, NotificationLevel::Error);

    assert!(Notification::for_event(&NetworkEvent::PeerDisconnected("x".to_string())).is_none());
    assert!(Notification::for_event(&NetworkEvent::ListeningOn("x".to_string())).is_none());
    assert!(Notification::for_event(&NetworkEvent::InventoryRequested {
        channel_id: ChannelId(1),
        requesting_peer: "x".to_string(),
    })
    .is_none());
}

#[test]
fn notifications_of_the_repository() {
    let notice = Notification::channel_discovered("channel-0192abcd");
    assert_eq!(notice.message, "New channel discovered: channel-0192abcd");
    assert_eq!(notice.level, NotificationLevel::Info);
    let notice = Notification::channel_announced("general");
    assert_eq!(notice.message, "New channel: general");
    assert_eq!(notice.level, NotificationLevel::Info);
    let notice = Notification::store_failed("disk full");
    assert_eq!(notice.message, "Failed to store message: disk full");
    assert_eq!(notice.level, NotificationLevel::Error);
}

#[test]
fn channel_kind_labels() {
    assert_eq!(ChannelType::PeerToPeer.label(), "PeerToPeer");
    assert_eq!(ChannelType::Group.label(), "Group");
    assert_eq!(ChannelType::from_label(&"PeerToPeer".to_string()), ChannelType::PeerToPeer);
    assert_eq!(ChannelType::from_label(&"Group".to_string()), ChannelType::Group);
    assert_eq!(ChannelType::from_label(&"anything".to_string()), ChannelType::Group);
    assert_eq!(ChannelType::from_label(&"".to_string()), ChannelType::Group);
}

#[test]
fn channel_rebuilt_from_a_record() {
    let members = vec![PeerId(5), PeerId(6), PeerId(5)];
    let channel = Channel::rebuilt(
        ChannelId(9),
        "old".to_string(),
        ChannelType::PeerToPeer,
        1_700_000_000_000_000_000,
        &members,
    );
    assert_eq!(channel.id, ChannelId(9));
    assert_eq!(channel.get_name(), "old");
    assert_eq!(channel.channel_type, ChannelType::PeerToPeer);
    assert_eq!(channel.created_at, 1_700_000_000_000_000_000);
    let mut held = channel.get_members();
    held.sort();
    assert_eq!(held, vec![PeerId(5), PeerId(6)]);
    assert_eq!(channel.hlc.peer_id(), PeerId(5));
    assert_eq!(channel.name.timestamp(), channel.hlc.latest());

    let lonely = Channel::rebuilt(ChannelId(1), "x".to_string(), ChannelType::Group, 0, &vec![]);
    assert!(lonely.get_members().is_empty());
    assert_eq!(lonely.channel_type, ChannelType::Group);
}

#[test]
fn clocks_are_restored_where_they_stood() {
    let peer = PeerId(4);
    let latest = Timestamp::new(2000, 17, PeerId(8));
    let mut clock = HybridLogicalClock::restore(peer, latest);
    assert_eq!(clock.peer_id(), peer);
    assert_eq!(clock.latest(), latest);
    assert_eq!(clock.tick_at(1000), Timestamp::new(2000, 18, peer));
    assert_eq!(clock.tick_at(3000), Timestamp::new(3000, 0, peer));

    let mut vector_clock = VectorClock::new();
    vector_clock.clocks.insert(peer.0, 41);
    let mut replica = Replica::restore(peer, 12, vector_clock);
    assert_eq!(replica.peer_id(), peer);
    assert_eq!(replica.lamport_clock(), 12);
    assert_eq!(replica.vector_clock().get(&peer), 41);
    let channel = Channel::new("c".to_string(), peer);
    let id = channel.id;
    replica.add_channel(channel);
    let message = replica.compose(id, "next".to_string()).unwrap();
    assert_eq!(message.lamport_timestamp, 13);
    assert_eq!(message.vector_clock.get(&peer), 42);
}

#[test]
fn events_and_commands_are_copied_whole() {
    let event = NetworkEvent::MessageRequested {
        channel_id: ChannelId(3),
        message_ids: vec![MessageId(1), MessageId(2)],
        requesting_peer: "peer".to_string(),
    };
    match event.clone() {
        NetworkEvent::MessageRequested { channel_id, message_ids, requesting_peer } => {
            assert_eq!(channel_id, ChannelId(3));
            assert_eq!(message_ids, vec![MessageId(1), MessageId(2)]);
            assert_eq!(requesting_peer, "peer");
        }
        other => panic!("unexpected event {:?}", other),
    }
    let command = NetworkCommand::BroadcastInventory {
        channel_id: ChannelId(3),
        message_ids: vec![MessageId(9)],
    };
    match command.clone() {
        NetworkCommand::BroadcastInventory { channel_id, message_ids } => {
            assert_eq!(channel_id, ChannelId(3));
            assert_eq!(message_ids, vec![MessageId(9)]);
        }
        other => panic!("unexpected command {:?}", other),
    }
    let frame = NetworkMessage::PeerAnnounce {
        peer_id: PeerId(4),
        listen_addresses: vec!["/ip4/1.1.1.1/tcp/1".to_string(), "/ip4/2.2.2.2/tcp/2".to_string()],
    };
    match frame.clone() {
        NetworkMessage::PeerAnnounce { peer_id, listen_addresses } => {
            assert_eq!(peer_id, PeerId(4));
            assert_eq!(listen_addresses.len(), 2);
            assert_eq!(listen_addresses[1], "/ip4/2.2.2.2/tcp/2");
        }
        other => panic!("unexpected frame {:?}", other),
    }
    let mut manager = PeerManager::new();
    manager.add_peer("a".to_string(), Some("/ip4/1.1.1.1/tcp/1".to_string()));
    let info = manager.get_peer(&"a".to_string()).unwrap().clone();
    assert_eq!(info.peer_id, "a");
    assert_eq!(info.addresses, vec!["/ip4/1.1.1.1/tcp/1".to_string()]);
}

#[test]
fn last_seen_is_set_to_the_reading_given() {
    let mut manager = PeerManager::new();
    let alice = "alice".to_string();
    let bob = "bob".to_string();
    manager.add_peer(alice.clone(), Some("/ip4/1.1.1.1/tcp/1".to_string()));
    manager.add_peer(bob.clone(), None);
    let connected_at = manager.get_peer(&alice).unwrap().connected_at;
    let bob_seen = manager.get_peer(&bob).unwrap().last_seen;

    manager.update_last_seen_at(&alice, 1234);
    let info = manager.get_peer(&alice).unwrap();
    assert_eq!(info.last_seen, 1234);
    assert_eq!(info.connected_at, connected_at);
    assert_eq!(info.peer_id, alice);
    assert_eq!(info.addresses, vec!["/ip4/1.1.1.1/tcp/1".to_string()]);
    assert_eq!(manager.get_peer(&bob).unwrap().last_seen, bob_seen);

    manager.update_last_seen_at(&"carol".to_string(), 99);
    assert_eq!(manager.peer_count(), 2);
    assert!(manager.get_peer(&"carol".to_string()).is_none());

    manager.update_last_seen(&alice);
    assert!(manager.get_peer(&alice).unwrap().last_seen > 1_600_000_000_000_000_000);
}
