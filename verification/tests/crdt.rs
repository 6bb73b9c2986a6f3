use burrow::channel::{Channel, ChannelType};
use burrow::crdt::{LWWRegister, ORSet, Timestamp};
use burrow::ids::{ChannelId, MessageId, PeerId};

#[test]
fn test_lww_register_merge() {
    let peer1 = PeerId::new();
    let peer2 = PeerId::new();

    let t1 = Timestamp::new(1000, 0, peer1);
    let t2 = Timestamp::new(2000, 0, peer2);

    let mut reg1 = LWWRegister::new("value1".to_string(), t1);
    let reg2 = LWWRegister::new("value2".to_string(), t2);

    reg1.merge(&reg2);

    assert_eq!(reg1.value(), "value2", "Should keep value with later timestamp");
}

#[test]
fn test_lww_register_set() {
    let peer = PeerId::new();
    let t1 = Timestamp::new(1000, 0, peer);
    let t2 = Timestamp::new(500, 0, peer); // Earlier timestamp

    let mut reg = LWWRegister::new("value1".to_string(), t1);
    reg.set("value2".to_string(), t2);

    assert_eq!(reg.value(), "value1", "Should not update with earlier timestamp");
}

#[test]
fn test_or_set_add_remove() {
    let mut set = ORSet::new();

    set.add("alice");
    assert!(set.contains(&"alice"));

    set.remove(&"alice");
    assert!(!set.contains(&"alice"));
}

#[test]
fn test_or_set_merge() {
    let mut set1 = ORSet::new();
    let mut set2 = ORSet::new();

    set1.add("alice");
    set2.add("bob");

    set1.merge(&set2);

    assert!(set1.contains(&"alice"));
    assert!(set1.contains(&"bob"));
    assert_eq!(set1.len(), 2);
}

#[test]
fn test_or_set_concurrent_add_remove() {
    let mut set1 = ORSet::new();
    let mut set2 = ORSet::new();

    // Both add "alice" with different tags
    set1.add("alice");
    set2.add("alice");

    // set1 removes alice
    set1.remove(&"alice");

    // Merge - alice should still be in the set because set2's add wasn't observed by set1's remove
    set1.merge(&set2);

    assert!(set1.contains(&"alice"), "Concurrent add should win over remove");
}

#[test]
fn lww_set_takes_later_write_and_keeps_timestamp() {
    let peer = PeerId(1);
    let mut reg = LWWRegister::new(1u32, Timestamp::new(10, 0, peer));
    reg.set(2, Timestamp::new(10, 1, peer));
    assert_eq!(*reg.value(), 2);
    assert_eq!(reg.timestamp(), Timestamp::new(10, 1, peer));
    reg.set(3, Timestamp::new(10, 1, peer));
    assert_eq!(*reg.value(), 2);
}

#[test]
fn lww_merge_breaks_ties_by_peer() {
    let low = PeerId(1);
    let high = PeerId(2);
    let mut a = LWWRegister::new("alpha".to_string(), Timestamp::new(7, 3, low));
    let b = LWWRegister::new("beta".to_string(), Timestamp::new(7, 3, high));
    let mut b2 = b.clone();
    a.merge(&b);
    assert_eq!(a.value(), "beta");
    b2.merge(&LWWRegister::new("alpha".to_string(), Timestamp::new(7, 3, low)));
    assert_eq!(b2.value(), "beta");
}

fn lww_samples() -> Vec<(u32, Timestamp)> {
    vec![
        (1, Timestamp::new(1, 0, PeerId(1))),
        (2, Timestamp::new(1, 0, PeerId(2))),
        (3, Timestamp::new(1, 5, PeerId(1))),
        (4, Timestamp::new(9, 0, PeerId(0))),
    ]
}

fn lww_merged(a: (u32, Timestamp), b: (u32, Timestamp)) -> (u32, Timestamp) {
    let mut reg = LWWRegister::new(a.0, a.1);
    reg.merge(&LWWRegister::new(b.0, b.1));
    (*reg.value(), reg.timestamp())
}

#[test]
fn lww_merge_is_idempotent_commutative_associative_on_samples() {
    let samples = lww_samples();
    for a in samples.iter() {
        assert_eq!(lww_merged(*a, *a), *a);
        for b in samples.iter() {
            assert_eq!(lww_merged(*a, *b), lww_merged(*b, *a));
            for c in samples.iter() {
                assert_eq!(
                    lww_merged(lww_merged(*a, *b), *c),
                    lww_merged(*a, lww_merged(*b, *c))
                );
            }
        }
    }
}

#[test]
fn lww_merge_keeps_own_value_on_equal_timestamps() {
    let t = Timestamp::new(4, 4, PeerId(4));
    assert_eq!(lww_merged((1, t), (2, t)), (1, t));
    assert_eq!(lww_merged((2, t), (1, t)), (2, t));
}

#[test]
fn or_set_tags_accumulate_and_remove_tag_is_precise() {
    let mut set: ORSet<u128> = ORSet::new();
    assert!(set.is_empty());
    assert!(set.tags(&5).is_none());
    set.add_with_tag(5, 100);
    set.add_with_tag(5, 200);
    assert_eq!(set.len(), 1);
    assert_eq!(set.tags(&5).unwrap().len(), 2);
    set.remove_tag(&5, 100);
    assert!(set.contains(&5));
    assert!(set.tags(&5).unwrap().contains(&200));
    set.remove_tag(&5, 999);
    assert!(set.contains(&5));
    set.remove_tag(&5, 200);
    assert!(!set.contains(&5));
    assert!(set.tags(&5).is_none());
    assert_eq!(set.len(), 0);
    assert!(set.is_empty());
    set.remove_tag(&6, 1);
    assert!(set.is_empty());
}

#[test]
fn or_set_add_returns_the_tag_it_used() {
    let mut set: ORSet<u128> = ORSet::new();
    let first = set.add(1);
    let second = set.add(1);
    assert_ne!(first, second);
    let tags = set.tags(&1).unwrap();
    assert!(tags.contains(&first));
    assert!(tags.contains(&second));
    assert_eq!(tags.len(), 2);
}

#[test]
fn or_set_remove_of_absent_element_changes_nothing() {
    let mut set: ORSet<u128> = ORSet::new();
    set.add_with_tag(1, 10);
    set.remove(&2);
    assert_eq!(set.elements(), vec![1]);
    let default: ORSet<u128> = ORSet::default();
    assert!(default.elements().is_empty());
}

#[test]
fn or_set_merge_unions_tags_elementwise() {
    let mut a: ORSet<u128> = ORSet::new();
    let mut b: ORSet<u128> = ORSet::new();
    a.add_with_tag(1, 10);
    a.add_with_tag(2, 20);
    b.add_with_tag(2, 21);
    b.add_with_tag(3, 30);
    let mut ab = a.clone();
    ab.merge(&b);
    let mut ba = b.clone();
    ba.merge(&a);
    for set in [&ab, &ba] {
        let mut elements = set.elements();
        elements.sort();
        assert_eq!(elements, vec![1, 2, 3]);
        assert_eq!(set.tags(&1).unwrap().len(), 1);
        assert_eq!(set.tags(&2).unwrap().len(), 2);
        assert!(set.tags(&2).unwrap().contains(&20));
        assert!(set.tags(&2).unwrap().contains(&21));
        assert_eq!(set.tags(&3).unwrap().len(), 1);
    }
    let mut again = ab.clone();
    again.merge(&ab);
    assert_eq!(again.len(), 3);
    assert_eq!(again.tags(&2).unwrap().len(), 2);
}

#[test]
fn or_set_observed_remove_only_drops_observed_tags() {
    let mut here: ORSet<u128> = ORSet::new();
    let mut there: ORSet<u128> = ORSet::new();
    here.add_with_tag(7, 1);
    there.merge(&here);
    there.remove(&7);
    here.merge(&there);
    assert!(here.contains(&7));
    there.add_with_tag(7, 2);
    here.remove(&7);
    here.merge(&there);
    assert!(here.contains(&7));
    assert!(here.tags(&7).unwrap().contains(&2));
    assert!(!here.tags(&7).unwrap().contains(&1));
}

#[test]
fn channel_new_has_creator_as_only_member() {
    let creator = PeerId::new();
    let channel = Channel::new("general".to_string(), creator);
    assert_eq!(channel.get_name(), "general");
    assert_eq!(channel.channel_type, ChannelType::Group);
    assert_eq!(channel.get_members(), vec![creator]);
    assert_eq!(channel.name.timestamp(), channel.hlc.latest());
    assert_eq!(channel.hlc.latest().peer_id, creator);
}

#[test]
fn channel_peer_to_peer_is_named_after_the_remote_peer() {
    let me = PeerId(0x0102_0304_0506_0708_090a_0b0c_0d0e_0f10);
    let you = PeerId(0xa1a2_a3a4_b1b2_c1c2_d1d2_d3d4_d5d6_d7d8);
    let channel = Channel::new_peer_to_peer(me, you);
    assert_eq!(channel.get_name(), "@a1a2a3a4b1b2c1c2d1d2d3d4d5d6d7d8");
    assert_eq!(channel.channel_type, ChannelType::PeerToPeer);
    let mut members = channel.get_members();
    members.sort();
    assert_eq!(members, vec![me, you]);
    let small = Channel::new_peer_to_peer(me, PeerId(0x1f));
    assert_eq!(small.get_name(), "@0000000000000000000000000000001f");
}

#[test]
fn channel_placeholder_has_no_members() {
    let id = ChannelId(42);
    let author = PeerId(9);
    let channel = Channel::placeholder(id, "channel-0000002a".to_string(), author);
    assert_eq!(channel.id, id);
    assert_eq!(channel.get_name(), "channel-0000002a");
    assert_eq!(channel.channel_type, ChannelType::Group);
    assert!(channel.get_members().is_empty());
    assert_eq!(channel.name.timestamp(), Timestamp::new(0, 0, author));
    assert_eq!(channel.hlc.peer_id(), author);
    assert_eq!(channel.hlc.latest().logical, 0);
}

#[test]
fn channel_set_name_uses_a_fresh_tick() {
    let creator = PeerId::new();
    let mut channel = Channel::new("old".to_string(), creator);
    let before = channel.hlc.latest();
    channel.set_name("new".to_string());
    assert_eq!(channel.get_name(), "new");
    assert!(channel.hlc.latest() > before);
    assert_eq!(channel.name.timestamp(), channel.hlc.latest());
}

#[test]
fn channel_members_add_and_remove() {
    let creator = PeerId(1);
    let guest = PeerId(2);
    let mut channel = Channel::new("c".to_string(), creator);
    let tag = channel.add_member(guest);
    assert!(channel.members.tags(&guest.0).unwrap().contains(&tag));
    let mut members = channel.get_members();
    members.sort();
    assert_eq!(members, vec![creator, guest]);
    channel.remove_member(&guest);
    assert_eq!(channel.get_members(), vec![creator]);
    channel.remove_member(&guest);
    assert_eq!(channel.get_members(), vec![creator]);
}

#[test]
fn channel_rename_race_converges_to_later_timestamp() {
    let alice = PeerId(1);
    let bob = PeerId(2);
    let base = Channel::new("base".to_string(), alice);
    let mut at_alice = base.clone();
    let mut at_bob = base.clone();
    at_alice.name.set("alpha".to_string(), Timestamp::new(u64::MAX - 1, 0, alice));
    at_bob.name.set("beta".to_string(), Timestamp::new(u64::MAX - 1, 0, bob));
    let snapshot1 = at_alice.clone();
    let snapshot2 = at_bob.clone();
    at_alice.merge(&snapshot2);
    at_bob.merge(&snapshot1);
    assert_eq!(at_alice.get_name(), "beta");
    assert_eq!(at_bob.get_name(), "beta");
    assert_eq!(at_alice.name.timestamp(), at_bob.name.timestamp());

    let mut early = base.clone();
    let mut late = base.clone();
    early.name.set("alpha".to_string(), Timestamp::new(u64::MAX - 5, 0, bob));
    late.name.set("beta".to_string(), Timestamp::new(u64::MAX - 4, 0, alice));
    let snapshot_early = early.clone();
    early.merge(&late);
    late.merge(&snapshot_early);
    assert_eq!(early.get_name(), "beta");
    assert_eq!(late.get_name(), "beta");
}

#[test]
fn channel_member_add_remove_commutes_with_concurrent_add() {
    let alice = PeerId(1);
    let bob = PeerId(2);
    let x = PeerId(77);
    let base = Channel::new("c".to_string(), alice);
    let mut at_alice = base.clone();
    let mut at_bob = base.clone();
    at_alice.add_member(x);
    at_alice.remove_member(&x);
    at_bob.add_member(x);
    let snapshot1 = at_alice.clone();
    at_alice.merge(&at_bob);
    at_bob.merge(&snapshot1);
    assert!(at_alice.get_members().contains(&x));
    assert!(at_bob.get_members().contains(&x));
    let mut m1 = at_alice.get_members();
    let mut m2 = at_bob.get_members();
    m1.sort();
    m2.sort();
    assert_eq!(m1, m2);
}

#[test]
fn channel_merge_moves_clock_past_both() {
    let alice = PeerId(1);
    let bob = PeerId(2);
    let mut a = Channel::new("a".to_string(), alice);
    let b = Channel::new("b".to_string(), bob);
    let own = a.hlc.latest();
    let other = b.hlc.latest();
    a.merge(&b);
    assert!(a.hlc.latest() > own);
    assert!(a.hlc.latest() > other);
    assert_eq!(a.hlc.latest().peer_id, alice);
}

#[test]
fn peer_id_from_transport_bytes_takes_sixteen_bytes_big_endian() {
    let long: Vec<u8> = (1u8..=20).collect();
    assert_eq!(
        PeerId::from_libp2p(&long),
        PeerId(0x0102_0304_0506_0708_090a_0b0c_0d0e_0f10)
    );
    let exact: Vec<u8> = (1u8..=16).collect();
    assert_eq!(PeerId::from_libp2p(&exact), PeerId::from_libp2p(&long));
    assert_eq!(
        PeerId::from_libp2p(&[0xab, 0xcd]),
        PeerId(0xabcd_0000_0000_0000_0000_0000_0000_0000)
    );
    assert_eq!(PeerId::from_libp2p(&[]), PeerId(0));
    assert_eq!(PeerId::from_libp2p(&[0xff; 16]), PeerId(u128::MAX));
}

#[test]
fn fresh_identifiers_differ_and_message_ids_grow() {
    let a = MessageId::new();
    let b = MessageId::new();
    assert!(a < b);
    assert_ne!(PeerId::new(), PeerId::new());
    assert_ne!(ChannelId::new(), ChannelId::new());
    assert_ne!(PeerId::default(), PeerId::default());
    assert_ne!(ChannelId::default(), ChannelId::default());
    assert_ne!(MessageId::default(), MessageId::default());
    assert_eq!(MessageId::from_numbers(&vec![3, 1]), vec![MessageId(3), MessageId(1)]);
}

#[test]
fn channel_rename_race_with_the_channels_own_clocks() {
    let alice = PeerId(1);
    let bob = PeerId(2);
    let base = Channel::new("base".to_string(), alice);
    let mut at_alice = base.clone();
    let mut at_bob = base.clone();
    at_bob.hlc = burrow::crdt::HybridLogicalClock::restore(bob, base.hlc.latest());
    at_alice.set_name("alpha".to_string());
    at_bob.set_name("beta".to_string());
    let t1 = at_alice.name.timestamp();
    let t2 = at_bob.name.timestamp();
    assert_ne!(t1, t2);
    let expected = if t1 > t2 { "alpha" } else { "beta" };
    let snapshot = at_alice.clone();
    at_alice.merge(&at_bob);
    at_bob.merge(&snapshot);
    assert_eq!(at_alice.get_name(), expected);
    assert_eq!(at_bob.get_name(), expected);
    assert_eq!(at_alice.name.timestamp(), if t1 > t2 { t1 } else { t2 });
    // Merging once more changes neither name nor members.
    let again = at_bob.clone();
    at_alice.merge(&again);
    assert_eq!(at_alice.get_name(), expected);
    assert_eq!(at_alice.get_members(), vec![alice]);
}

#[test]
fn fresh_identifiers_carry_version_seven() {
    let mut set: ORSet<u128> = ORSet::new();
    let samples = [
        PeerId::new().0,
        ChannelId::new().0,
        MessageId::new().0,
        set.add(1),
        Channel::new("c".to_string(), PeerId(1)).id.0,
    ];
    for id in samples {
        assert_eq!((id >> 76) & 0xf, 7);
        assert_eq!((id >> 62) & 0x3, 2);
        assert_eq!((id / 0x1000_0000_0000_0000_0000) % 16, 7);
        assert_eq!((id / 0x4000_0000_0000_0000) % 4, 2);
    }
}

#[test]
fn tags_are_given_only_for_an_element_that_is_present() {
    let mut set: ORSet<u128> = ORSet::new();
    assert!(set.tags(&1).is_none());
    set.add_with_tag(1, 10);
    let tags = set.tags(&1).unwrap();
    assert!(!tags.is_empty());
    assert_eq!(set.len(), set.elements().len());
    set.remove_tag(&1, 10);
    assert!(set.tags(&1).is_none());
    assert_eq!(set.len(), 0);
    assert!(set.elements().is_empty());
    assert!(set.is_empty());
}

#[test]
fn first_names_are_written_after_the_least_timestamp() {
    let creator = PeerId(3);
    let channel = Channel::new("n".to_string(), creator);
    let stamp = channel.name.timestamp();
    assert_eq!(stamp.peer_id, creator);
    assert!(stamp.logical <= 1);
    assert!(stamp > Timestamp::new(0, 0, PeerId(u128::MAX)));
    let pair = Channel::new_peer_to_peer(creator, PeerId(4));
    assert_eq!(pair.hlc.latest().peer_id, creator);
    assert!(pair.hlc.latest().logical <= 1);
}
