use burrow::dag::gossip::GossipManager;
use burrow::dag::load::sort_by_creation;
use burrow::dag::{DagError, MessageDAG};
use burrow::ids::{ChannelId, MessageId, PeerId};
use burrow::message::{Message, MessageContent};
use burrow::network::NetworkCommand;
use burrow::vector_clock::VectorClock;

fn create_test_message(
    channel_id: ChannelId,
    author: PeerId,
    lamport: u64,
    parents: Vec<MessageId>,
) -> Message {
    let mut vc = VectorClock::new();
    vc.increment(author);

    let mut msg = Message::new(
        channel_id,
        author,
        MessageContent {
            text: format!("Message {}", lamport),
        },
        vc,
        lamport,
    );
    msg.parent_hashes = parents;
    msg
}

fn plain(id: u128, channel: u128, lamport: u64, parents: &[u128], created_at: u128) -> Message {
    Message {
        id: MessageId(id),
        channel_id: ChannelId(channel),
        author: PeerId(1),
        content: MessageContent { text: format!("m{}", id) },
        vector_clock: VectorClock::new(),
        lamport_timestamp: lamport,
        parent_hashes: parents.iter().map(|p| MessageId(*p)).collect(),
        created_at,
    }
}

fn ids_of(messages: &[Message]) -> Vec<u128> {
    messages.iter().map(|m| m.id.0).collect()
}

fn sorted_heads(dag: &MessageDAG, channel: u128) -> Vec<u128> {
    let mut heads: Vec<u128> = dag.get_heads(&ChannelId(channel)).iter().map(|h| h.0).collect();
    heads.sort();
    heads
}

#[test]
fn test_dag_basic_chain() {
    let mut dag = MessageDAG::new();
    let channel = ChannelId::new();
    let author = PeerId::new();

    // Create a chain: m1 -> m2 -> m3
    let m1 = create_test_message(channel, author, 1, vec![]);
    let m1_id = m1.id;

    let m2 = create_test_message(channel, author, 2, vec![m1_id]);
    let m2_id = m2.id;

    let m3 = create_test_message(channel, author, 3, vec![m2_id]);
    let m3_id = m3.id;

    dag.add_message(m1).unwrap();
    dag.add_message(m2).unwrap();
    dag.add_message(m3).unwrap();

    let heads = dag.get_heads(&channel);
    assert_eq!(heads.len(), 1);
    assert_eq!(heads[0], m3_id);
}

#[test]
fn test_dag_concurrent_messages() {
    let mut dag = MessageDAG::new();
    let channel = ChannelId::new();
    let author = PeerId::new();

    // Create concurrent messages: m1 <- m2, m1 <- m3
    let m1 = create_test_message(channel, author, 1, vec![]);
    let m1_id = m1.id;

    let m2 = create_test_message(channel, author, 2, vec![m1_id]);
    let m3 = create_test_message(channel, author, 3, vec![m1_id]);

    dag.add_message(m1).unwrap();
    dag.add_message(m2).unwrap();
    dag.add_message(m3).unwrap();

    let heads = dag.get_heads(&channel);
    assert_eq!(heads.len(), 2);
}

#[test]
fn test_dag_merge() {
    let mut dag = MessageDAG::new();
    let channel = ChannelId::new();
    let author = PeerId::new();

    // Create: m1 <- m2, m1 <- m3, m2+m3 <- m4 (merge)
    let m1 = create_test_message(channel, author, 1, vec![]);
    let m1_id = m1.id;

    let m2 = create_test_message(channel, author, 2, vec![m1_id]);
    let m2_id = m2.id;

    let m3 = create_test_message(channel, author, 3, vec![m1_id]);
    let m3_id = m3.id;

    let m4 = create_test_message(channel, author, 4, vec![m2_id, m3_id]);
    let m4_id = m4.id;

    dag.add_message(m1).unwrap();
    dag.add_message(m2).unwrap();
    dag.add_message(m3).unwrap();
    dag.add_message(m4).unwrap();

    let heads = dag.get_heads(&channel);
    assert_eq!(heads.len(), 1);
    assert_eq!(heads[0], m4_id);
}

#[test]
fn test_topological_sort() {
    let mut dag = MessageDAG::new();
    let channel = ChannelId::new();
    let author = PeerId::new();

    let m1 = create_test_message(channel, author, 1, vec![]);
    let m1_id = m1.id;

    let m2 = create_test_message(channel, author, 2, vec![m1_id]);
    let m2_id = m2.id;

    let m3 = create_test_message(channel, author, 3, vec![m2_id]);

    dag.add_message(m1).unwrap();
    dag.add_message(m2).unwrap();
    dag.add_message(m3).unwrap();

    let ordered = dag.get_ordered_messages(&channel);
    assert_eq!(ordered.len(), 3);
    assert_eq!(ordered[0].lamport_timestamp, 1);
    assert_eq!(ordered[1].lamport_timestamp, 2);
    assert_eq!(ordered[2].lamport_timestamp, 3);
}

#[test]
fn test_gossip_manager_creation() {
    let _manager = GossipManager::new();
    // Just test that it can be created
}

#[test]
fn new_message_has_no_parents_and_carries_what_it_was_given() {
    let channel = ChannelId(5);
    let author = PeerId(6);
    let mut vc = VectorClock::new();
    vc.increment(author);
    let message = Message::new(
        channel,
        author,
        MessageContent { text: "hello".to_string() },
        vc,
        9,
    );
    assert_eq!(message.channel_id, channel);
    assert_eq!(message.author, author);
    assert_eq!(message.content.text, "hello");
    assert_eq!(message.vector_clock.get(&author), 1);
    assert_eq!(message.lamport_timestamp, 9);
    assert!(message.parent_hashes.is_empty());
    assert!(message.created_at > 1_600_000_000_000_000_000);
    let copy = message.clone();
    assert_eq!(copy.id, message.id);
    assert_eq!(copy.content.text, "hello");
    assert_eq!(copy.created_at, message.created_at);
    assert_eq!(copy.vector_clock, message.vector_clock);
}

#[test]
fn empty_graph_has_nothing() {
    let dag = MessageDAG::default();
    assert!(dag.get_heads(&ChannelId(1)).is_empty());
    assert!(dag.get_message(&MessageId(1)).is_none());
    assert!(dag.all_messages().is_empty());
    assert!(dag.all_message_ids().is_empty());
    assert!(dag.find_missing_messages().is_empty());
    assert!(!dag.has_message(&MessageId(1)));
    assert!(dag.get_ordered_messages(&ChannelId(1)).is_empty());
}

#[test]
fn missing_parent_is_reported_and_nothing_is_stored() {
    let mut dag = MessageDAG::new();
    dag.add_message(plain(1, 9, 1, &[], 0)).unwrap();
    let result = dag.add_message(plain(3, 9, 3, &[1, 2, 7], 0));
    match result {
        Err(DagError::MissingParent { message_id, missing_parent }) => {
            assert_eq!(message_id, MessageId(3));
            assert_eq!(missing_parent, MessageId(2));
        }
        Ok(()) => panic!("a message with a missing parent was admitted"),
    }
    assert!(!dag.has_message(&MessageId(3)));
    assert_eq!(sorted_heads(&dag, 9), vec![1]);
    assert!(dag.find_missing_messages().is_empty());
    assert_eq!(dag.all_message_ids(), vec![MessageId(1)]);
}

#[test]
fn admission_updates_heads_only_in_the_messages_channel() {
    let mut dag = MessageDAG::new();
    dag.add_message(plain(1, 100, 1, &[], 0)).unwrap();
    dag.add_message(plain(2, 200, 1, &[], 0)).unwrap();
    dag.add_message(plain(3, 200, 2, &[1, 2], 0)).unwrap();
    assert_eq!(sorted_heads(&dag, 100), vec![1]);
    assert_eq!(sorted_heads(&dag, 200), vec![3]);
    assert_eq!(dag.get_message(&MessageId(3)).unwrap().lamport_timestamp, 2);
    assert_eq!(dag.all_messages().len(), 3);
    let mut ids: Vec<u128> = dag.all_message_ids().iter().map(|m| m.0).collect();
    ids.sort();
    assert_eq!(ids, vec![1, 2, 3]);
}

#[test]
fn order_breaks_ties_by_lamport_then_id() {
    let mut dag = MessageDAG::new();
    dag.add_message(plain(10, 1, 1, &[], 0)).unwrap();
    dag.add_message(plain(30, 1, 2, &[10], 0)).unwrap();
    dag.add_message(plain(20, 1, 2, &[10], 0)).unwrap();
    dag.add_message(plain(15, 1, 5, &[10], 0)).unwrap();
    dag.add_message(plain(40, 1, 3, &[20, 30], 0)).unwrap();
    let ordered = dag.get_ordered_messages(&ChannelId(1));
    assert_eq!(ids_of(&ordered), vec![10, 20, 30, 15, 40]);
}

#[test]
fn order_is_first_in_first_out_across_layers() {
    // Roots 1 and 2; 3 is a child of 2 with a small Lamport timestamp,
    // 4 a child of 1 with a large one. 1 is placed first and frees 4, then 2
    // is placed and frees 3: 4 stands before 3 although its key is greater.
    let mut dag = MessageDAG::new();
    dag.add_message(plain(1, 1, 1, &[], 0)).unwrap();
    dag.add_message(plain(2, 1, 1, &[], 0)).unwrap();
    dag.add_message(plain(3, 1, 2, &[2], 0)).unwrap();
    dag.add_message(plain(4, 1, 9, &[1], 0)).unwrap();
    let ordered = dag.get_ordered_messages(&ChannelId(1));
    assert_eq!(ids_of(&ordered), vec![1, 2, 4, 3]);
}

#[test]
fn order_ignores_parents_in_other_channels_and_repeated_parents() {
    let mut dag = MessageDAG::new();
    dag.add_message(plain(1, 7, 1, &[], 0)).unwrap();
    dag.add_message(plain(2, 8, 1, &[], 0)).unwrap();
    dag.add_message(plain(3, 8, 2, &[1, 2, 2], 0)).unwrap();
    dag.add_message(plain(4, 8, 3, &[3, 3], 0)).unwrap();
    assert_eq!(ids_of(&dag.get_ordered_messages(&ChannelId(8))), vec![2, 3, 4]);
    assert_eq!(ids_of(&dag.get_ordered_messages(&ChannelId(7))), vec![1]);
    assert!(dag.get_ordered_messages(&ChannelId(9)).is_empty());
}

#[test]
fn order_puts_every_parent_before_its_children() {
    let mut dag = MessageDAG::new();
    let edges: Vec<(u128, u64, Vec<u128>)> = vec![
        (50, 1, vec![]),
        (40, 2, vec![50]),
        (30, 2, vec![50]),
        (20, 3, vec![40, 30]),
        (10, 4, vec![20]),
        (60, 3, vec![40]),
        (5, 9, vec![60, 10]),
    ];
    for (id, lamport, parents) in edges.iter() {
        dag.add_message(plain(*id, 1, *lamport, parents, 0)).unwrap();
    }
    let ordered = dag.get_ordered_messages(&ChannelId(1));
    assert_eq!(ordered.len(), 7);
    for (at, message) in ordered.iter().enumerate() {
        for parent in message.parent_hashes.iter() {
            let parent_at = ordered.iter().position(|m| m.id == *parent).unwrap();
            assert!(parent_at < at);
        }
    }
    assert_eq!(ids_of(&ordered), vec![50, 30, 40, 20, 60, 10, 5]);
}

#[test]
fn order_is_the_same_whatever_the_order_of_admission() {
    let mut first = MessageDAG::new();
    first.add_message(plain(1, 1, 1, &[], 0)).unwrap();
    first.add_message(plain(2, 1, 2, &[1], 0)).unwrap();
    first.add_message(plain(3, 1, 2, &[1], 0)).unwrap();
    first.add_message(plain(4, 1, 3, &[2, 3], 0)).unwrap();
    let mut second = MessageDAG::new();
    second.add_message(plain(1, 1, 1, &[], 0)).unwrap();
    second.add_message(plain(3, 1, 2, &[1], 0)).unwrap();
    second.add_message(plain(2, 1, 2, &[1], 0)).unwrap();
    second.add_message(plain(4, 1, 3, &[3, 2], 0)).unwrap();
    assert_eq!(
        ids_of(&first.get_ordered_messages(&ChannelId(1))),
        ids_of(&second.get_ordered_messages(&ChannelId(1)))
    );
    assert_eq!(sorted_heads(&first, 1), sorted_heads(&second, 1));
}

#[test]
fn find_missing_returns_exactly_the_referenced_and_absent() {
    let mut dag = MessageDAG::new();
    dag.load_messages(vec![
        plain(1, 1, 1, &[], 10),
        plain(2, 1, 2, &[1, 90], 20),
        plain(3, 1, 3, &[90, 91, 2], 30),
        plain(4, 2, 1, &[92, 92], 40),
    ])
    .unwrap();
    let mut missing: Vec<u128> = dag.find_missing_messages().iter().map(|m| m.0).collect();
    missing.sort();
    assert_eq!(missing, vec![90, 91, 92]);
}

#[test]
fn bulk_load_sorts_by_creation_and_rebuilds_heads() {
    let mut dag = MessageDAG::new();
    let result = dag.load_messages(vec![
        plain(3, 1, 3, &[2], 300),
        plain(1, 1, 1, &[], 100),
        plain(2, 1, 2, &[1], 200),
        plain(9, 2, 1, &[], 50),
    ]);
    assert!(result.is_ok());
    assert_eq!(sorted_heads(&dag, 1), vec![3]);
    assert_eq!(sorted_heads(&dag, 2), vec![9]);
    assert_eq!(ids_of(&dag.get_ordered_messages(&ChannelId(1))), vec![1, 2, 3]);
    assert!(dag.find_missing_messages().is_empty());
}

#[test]
fn bulk_load_links_only_parents_that_are_present_by_then() {
    // The child is made before its parent: when it is stored the parent is
    // not held, so no link is made and the parent stays a head.
    let mut dag = MessageDAG::new();
    dag.load_messages(vec![plain(1, 1, 1, &[], 200), plain(2, 1, 2, &[1], 100)]).unwrap();
    assert_eq!(sorted_heads(&dag, 1), vec![1, 2]);
    assert_eq!(ids_of(&dag.get_ordered_messages(&ChannelId(1))), vec![1, 2]);
}

#[test]
fn bulk_load_never_fails_on_missing_parents() {
    let mut dag = MessageDAG::new();
    assert!(dag.load_messages(vec![plain(2, 1, 2, &[1], 100)]).is_ok());
    assert!(dag.has_message(&MessageId(2)));
    assert_eq!(sorted_heads(&dag, 1), vec![2]);
    assert_eq!(dag.find_missing_messages(), vec![MessageId(1)]);
    // Later loads rebuild the heads over all messages.
    dag.load_messages(vec![plain(3, 1, 3, &[2], 300)]).unwrap();
    assert_eq!(sorted_heads(&dag, 1), vec![3]);
    assert!(dag.load_messages(vec![]).is_ok());
    assert_eq!(sorted_heads(&dag, 1), vec![3]);
}

#[test]
fn sort_by_creation_is_stable() {
    let sorted = sort_by_creation(vec![
        plain(1, 1, 1, &[], 30),
        plain(2, 1, 1, &[], 10),
        plain(3, 1, 1, &[], 30),
        plain(4, 1, 1, &[], 10),
        plain(5, 1, 1, &[], 20),
    ]);
    assert_eq!(ids_of(&sorted), vec![2, 4, 5, 1, 3]);
    assert!(sort_by_creation(vec![]).is_empty());
}

#[test]
fn gossip_requests_inventory() {
    let manager = GossipManager::new();
    match manager.request_inventory(ChannelId(4)) {
        NetworkCommand::RequestInventory { channel_id } => assert_eq!(channel_id, ChannelId(4)),
        other => panic!("unexpected command {:?}", other),
    }
}

#[test]
fn gossip_inventory_is_sorted_and_without_duplicates() {
    let manager = GossipManager::new();
    let held = vec![MessageId(30), MessageId(10), MessageId(20), MessageId(10), MessageId(30)];
    match manager.send_inventory(ChannelId(4), &held) {
        NetworkCommand::BroadcastInventory { channel_id, message_ids } => {
            assert_eq!(channel_id, ChannelId(4));
            assert_eq!(message_ids, vec![MessageId(10), MessageId(20), MessageId(30)]);
        }
        other => panic!("unexpected command {:?}", other),
    }
    match manager.send_inventory(ChannelId(4), &vec![]) {
        NetworkCommand::BroadcastInventory { message_ids, .. } => assert!(message_ids.is_empty()),
        other => panic!("unexpected command {:?}", other),
    }
}

#[test]
fn gossip_asks_for_what_they_have_and_we_lack() {
    let manager = GossipManager::new();
    let mut dag = MessageDAG::new();
    dag.add_message(plain(1, 1, 1, &[], 0)).unwrap();
    dag.add_message(plain(2, 1, 2, &[1], 0)).unwrap();
    let none: Vec<Message> = Vec::new();
    let theirs = vec![MessageId(2), MessageId(5), MessageId(1), MessageId(4), MessageId(5)];
    match manager.handle_inventory(ChannelId(1), &theirs, &dag, &none) {
        Some(NetworkCommand::RequestMessages { channel_id, message_ids }) => {
            assert_eq!(channel_id, ChannelId(1));
            assert_eq!(message_ids, vec![MessageId(5), MessageId(4)]);
        }
        other => panic!("unexpected command {:?}", other),
    }
    assert!(manager
        .handle_inventory(ChannelId(1), &vec![MessageId(1), MessageId(2)], &dag, &none)
        .is_none());
    assert!(manager.handle_inventory(ChannelId(1), &vec![], &dag, &none).is_none());
}

#[test]
fn gossip_does_not_ask_for_what_waits_for_admission() {
    let manager = GossipManager::new();
    let dag = MessageDAG::new();
    let waiting = vec![plain(3, 1, 3, &[2], 0)];
    let theirs = vec![MessageId(1), MessageId(2), MessageId(3)];
    match manager.handle_inventory(ChannelId(1), &theirs, &dag, &waiting) {
        Some(NetworkCommand::RequestMessages { channel_id, message_ids }) => {
            assert_eq!(channel_id, ChannelId(1));
            assert_eq!(message_ids, vec![MessageId(1), MessageId(2)]);
        }
        other => panic!("unexpected command {:?}", other),
    }
    assert!(manager.handle_inventory(ChannelId(1), &vec![MessageId(3)], &dag, &waiting).is_none());
}

#[test]
fn gossip_answers_a_message_request_only_with_messages() {
    let manager = GossipManager::new();
    assert!(manager.handle_message_request(ChannelId(1), vec![]).is_none());
    match manager.handle_message_request(ChannelId(1), vec![plain(1, 1, 1, &[], 0)]) {
        Some(NetworkCommand::RespondWithMessages { channel_id, messages }) => {
            assert_eq!(channel_id, ChannelId(1));
            assert_eq!(ids_of(&messages), vec![1]);
        }
        other => panic!("unexpected command {:?}", other),
    }
}

#[test]
fn gossip_requests_missing_parents() {
    let manager = GossipManager::new();
    let mut dag = MessageDAG::new();
    let none: Vec<Message> = Vec::new();
    assert!(manager.detect_and_request_missing(ChannelId(1), &dag, &none).is_none());
    dag.load_messages(vec![plain(3, 1, 3, &[2], 0)]).unwrap();
    match manager.detect_and_request_missing(ChannelId(1), &dag, &none) {
        Some(NetworkCommand::RequestMessages { channel_id, message_ids }) => {
            assert_eq!(channel_id, ChannelId(1));
            assert_eq!(message_ids, vec![MessageId(2)]);
        }
        other => panic!("unexpected command {:?}", other),
    }
}

#[test]
fn gossip_requests_the_parents_of_what_waits() {
    let manager = GossipManager::new();
    let mut dag = MessageDAG::new();
    dag.add_message(plain(1, 1, 1, &[], 0)).unwrap();
    // 5 waits for 4 and 1; 6 waits for 5 and 4; 2 was loaded with its parent 9 missing.
    dag.load_messages(vec![plain(2, 1, 2, &[9], 0)]).unwrap();
    let waiting = vec![plain(5, 1, 5, &[4, 1], 0), plain(6, 1, 6, &[5, 4, 7], 0)];
    match manager.detect_and_request_missing(ChannelId(1), &dag, &waiting) {
        Some(NetworkCommand::RequestMessages { channel_id, message_ids }) => {
            assert_eq!(channel_id, ChannelId(1));
            assert_eq!(message_ids, vec![MessageId(9), MessageId(4), MessageId(7)]);
        }
        other => panic!("unexpected command {:?}", other),
    }
    // What is named only by messages that are all held is not asked for.
    let settled = vec![plain(5, 1, 5, &[1], 0)];
    let mut whole = MessageDAG::new();
    whole.add_message(plain(1, 1, 1, &[], 0)).unwrap();
    assert!(manager.detect_and_request_missing(ChannelId(1), &whole, &settled).is_none());
}

#[test]
fn first_missing_parent_is_found() {
    let mut dag = MessageDAG::new();
    dag.add_message(plain(1, 1, 1, &[], 0)).unwrap();
    assert_eq!(dag.first_missing(&plain(2, 1, 2, &[1], 0)), None);
    assert_eq!(dag.first_missing(&plain(2, 1, 2, &[], 0)), None);
    assert_eq!(dag.first_missing(&plain(3, 1, 3, &[1, 8, 9], 0)), Some(MessageId(8)));
}
