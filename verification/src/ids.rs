//! Identifiers of peers, channels and messages: opaque 128-bit values.

use vstd::prelude::*;
use crate::outside::{fresh_uuid, is_version_seven};

verus! {

/// The number that sixteen bytes spell when read big-endian, taking the
/// first `n` bytes of `bytes` and reading a zero wherever `bytes` has ended.
pub open spec fn big_endian_prefix(bytes: Seq<u8>, n: nat) -> nat
    decreases n,
{
    if n == 0 {
        0
    } else {
        let last: nat = if n - 1 < bytes.len() {
            bytes[n - 1] as nat
        } else {
            0
        };
        big_endian_prefix(bytes, (n - 1) as nat) * 256 + last
    }
}

/// `256` to the power `n`.
pub open spec fn radix_power(n: nat) -> nat
    decreases n,
{
    if n == 0 {
        1
    } else {
        256 * radix_power((n - 1) as nat)
    }
}

/// A prefix of `n` bytes spells a number below `256^n`.
pub proof fn lemma_big_endian_prefix_bound(bytes: Seq<u8>, n: nat)
    ensures
        big_endian_prefix(bytes, n) < radix_power(n),
    decreases n,
{
    if n > 0 {
        lemma_big_endian_prefix_bound(bytes, (n - 1) as nat);
    }
}

/// Sixteen bytes spell a number that fits in 128 bits.
pub proof fn lemma_radix_power_sixteen()
    ensures
        radix_power(16) == 0x1_0000_0000_0000_0000_0000_0000_0000_0000,
        forall|n: nat| n <= 15 ==> #[trigger] radix_power(n) * 256 <= radix_power(16),
{
    reveal_with_fuel(radix_power, 17);
    assert forall|n: nat| n <= 15 implies #[trigger] radix_power(n) * 256 <= radix_power(16) by {
        if n == 0 {
        } else if n == 1 {
        } else if n == 2 {
        } else if n == 3 {
        } else if n == 4 {
        } else if n == 5 {
        } else if n == 6 {
        } else if n == 7 {
        } else if n == 8 {
        } else if n == 9 {
        } else if n == 10 {
        } else if n == 11 {
        } else if n == 12 {
        } else if n == 13 {
        } else if n == 14 {
        } else {
            assert(n == 15);
        }
    }
}

/// Identifier of a peer, derived from the peer's long-term public key.
#[derive(Debug, Clone, Copy, PartialEq, Eq, Structural, Hash, PartialOrd, Ord)]
pub struct PeerId(pub u128);

/// Identifier of a channel.
#[derive(Debug, Clone, Copy, PartialEq, Eq, Structural, Hash)]
pub struct ChannelId(pub u128);

/// Identifier of a message. Identifiers made by [`MessageId::new`] grow with
/// the time of their making.
#[derive(Debug, Clone, Copy, PartialEq, Eq, Structural, Hash, PartialOrd, Ord)]
pub struct MessageId(pub u128);

impl PeerId {
    /// A new identifier, not derived from any key: a version 7 identifier,
    /// made from the present time and random bits.
    pub fn new() -> (id: Self)
        ensures
            is_version_seven(id.0),
    {
        PeerId(fresh_uuid())
    }

    /// The identifier of the peer whose transport identifier encodes to
    /// `peer_bytes`: the first sixteen bytes of the encoding, read big-endian,
    /// with zeros in place of the bytes that a shorter encoding lacks.
    pub fn from_libp2p(peer_bytes: &[u8]) -> (id: Self)
        ensures
            id.0 == big_endian_prefix(peer_bytes@, 16),
    {
        let mut value: u128 = 0;
        let mut i: usize = 0;
        while i < 16
            invariant
                i <= 16,
                value == big_endian_prefix(peer_bytes@, i as nat),
            decreases 16 - i,
        {
            let byte: u8 = if i < peer_bytes.len() {
                peer_bytes[i]
            } else {
                0
            };
            proof {
                lemma_big_endian_prefix_bound(peer_bytes@, i as nat);
                lemma_radix_power_sixteen();
                assert(radix_power(i as nat) * 256 <= radix_power(16));
            }
            value = value * 256 + byte as u128;
            i = i + 1;
        }
        PeerId(value)
    }
}

impl Default for PeerId {
    fn default() -> (id: Self)
        ensures
            is_version_seven(id.0),
    {
        PeerId::new()
    }
}

impl ChannelId {
    /// A new identifier: a version 7 identifier, made from the present time
    /// and random bits.
    pub fn new() -> (id: Self)
        ensures
            is_version_seven(id.0),
    {
        ChannelId(fresh_uuid())
    }
}

impl Default for ChannelId {
    fn default() -> (id: Self)
        ensures
            is_version_seven(id.0),
    {
        ChannelId::new()
    }
}

impl MessageId {
    /// A new identifier: a version 7 identifier, made from the present time
    /// and random bits.
    pub fn new() -> (id: Self)
        ensures
            is_version_seven(id.0),
    {
        MessageId(fresh_uuid())
    }

    /// A copy of `ids`.
    pub fn clone_all(ids: &Vec<MessageId>) -> (copy: Vec<MessageId>)
        ensures
            copy@ == ids@,
    {
        let mut copy: Vec<MessageId> = Vec::new();
        let mut i: usize = 0;
        while i < ids.len()
            invariant
                i <= ids.len(),
                copy@ == ids@.take(i as int),
            decreases ids.len() - i,
        {
            copy.push(ids[i]);
            assert(copy@ =~= ids@.take(i + 1));
            i = i + 1;
        }
        assert(ids@.take(ids@.len() as int) =~= ids@);
        copy
    }

    /// The numbers of the given identifiers, in the same order.
    pub fn numbers_of(ids: &Vec<MessageId>) -> (numbers: Vec<u128>)
        ensures
            numbers@.len() == ids@.len(),
            forall|i: int| 0 <= i < numbers@.len() ==> #[trigger] numbers@[i] == ids@[i].0,
            forall|id: MessageId| numbers@.contains(id.0) <==> ids@.contains(id),
    {
        let mut numbers: Vec<u128> = Vec::new();
        let mut i: usize = 0;
        while i < ids.len()
            invariant
                i <= ids.len(),
                numbers@.len() == i,
                forall|j: int| 0 <= j < i ==> #[trigger] numbers@[j] == ids@[j].0,
            decreases ids.len() - i,
        {
            numbers.push(ids[i].0);
            i = i + 1;
        }
        proof {
            assert forall|id: MessageId| numbers@.contains(id.0) <==> ids@.contains(id) by {
                if numbers@.contains(id.0) {
                    let j = choose|j: int| 0 <= j < numbers@.len() && numbers@[j] == id.0;
                    assert(ids@[j].0 == id.0);
                    assert(ids@[j] == id);
                }
                if ids@.contains(id) {
                    let j = choose|j: int| 0 <= j < ids@.len() && ids@[j] == id;
                    assert(numbers@[j] == id.0);
                }
            }
        }
        numbers
    }

    /// The identifiers with the given numbers, in the same order.
    pub fn from_numbers(numbers: &Vec<u128>) -> (ids: Vec<MessageId>)
        ensures
            ids@.len() == numbers@.len(),
            forall|i: int| 0 <= i < ids@.len() ==> (#[trigger] ids@[i]).0 == numbers@[i],
            numbers@.no_duplicates() ==> ids@.no_duplicates(),
            forall|id: MessageId| ids@.contains(id) <==> numbers@.contains(id.0),
    {
        let mut ids: Vec<MessageId> = Vec::new();
        let mut i: usize = 0;
        while i < numbers.len()
            invariant
                i <= numbers.len(),
                ids@.len() == i,
                forall|j: int| 0 <= j < i ==> (#[trigger] ids@[j]).0 == numbers@[j],
            decreases numbers.len() - i,
        {
            ids.push(MessageId(numbers[i]));
            i = i + 1;
        }
        proof {
            assert forall|id: MessageId| ids@.contains(id) <==> numbers@.contains(id.0) by {
                if ids@.contains(id) {
                    let j = choose|j: int| 0 <= j < ids@.len() && ids@[j] == id;
                    assert(numbers@[j] == id.0);
                }
                if numbers@.contains(id.0) {
                    let j = choose|j: int| 0 <= j < numbers@.len() && numbers@[j] == id.0;
                    assert(ids@[j].0 == id.0);
                    assert(ids@[j] == id);
                }
            }
            if numbers@.no_duplicates() {
                assert forall|a: int, b: int| 0 <= a < b < ids@.len() implies ids@[a] != ids@[b] by {
                    assert(ids@[a].0 == numbers@[a] && ids@[b].0 == numbers@[b]);
                }
            }
        }
        ids
    }
}

impl Default for MessageId {
    fn default() -> (id: Self)
        ensures
            is_version_seven(id.0),
    {
        MessageId::new()
    }
}

} // verus!
