//! Walking a channel in causal order.
//!
//! This is Kahn's algorithm as the graph runs it: the messages of the channel
//! are listed by their keys, every message gets the list of its children,
//! and a queue takes the messages as they become free.

use vstd::prelude::*;
use vstd::std_specs::hash::*;
use std::collections::{HashMap, HashSet};
use crate::collect::{lemma_take_all, lemma_take_next, map_keys};
use crate::dag::order::{
    causal_order, channel_listing, children_among, free_among, freed_by, in_channel, kahn,
    leaves_out_only_behind_cycles, lemma_children_among, lemma_listing_is_unique,
    lemma_selection_next, lemma_start_is_sound, lemma_step_is_sound, lists_channel,
    names_parent, order_key, parents_first, ready, roots, sound,
};
use crate::dag::{id_numbers, MessageDAG};
use crate::ids::{ChannelId, MessageId};
use crate::message::{Message, MessageView};
use crate::sorted::{increasing, insert_in_order, key_before};

verus! {

/// The list that `lists` holds for `parent`: empty where it holds none.
pub open spec fn list_at(lists: Map<u128, Vec<(u64, u128)>>, parent: u128) -> Seq<(u64, u128)> {
    if lists.contains_key(parent) {
        lists[parent]@
    } else {
        Seq::empty()
    }
}

/// The children among the first `i` keys of a listing do not hold the key
/// at `i`.
proof fn lemma_children_are_earlier(
    messages: Map<u128, MessageView>,
    parent: u128,
    listing: Seq<(u64, u128)>,
    i: int,
)
    requires
        increasing(listing),
        0 <= i < listing.len(),
    ensures
        !children_among(messages, parent, listing.take(i)).contains(listing[i]),
{
    lemma_children_among(messages, parent, listing.take(i));
    if listing.take(i).contains(listing[i]) {
        let j = choose|j: int| 0 <= j < i && listing.take(i)[j] == listing[i];
        assert(key_before(listing[j], listing[i]));
    }
}

impl MessageDAG {
    /// Whether the graph holds the message `number` as one of `channel`.
    fn holds_in_channel(&self, channel: u128, number: u128) -> (held: bool)
        ensures
            held == in_channel(self@.messages, channel, number),
    {
        broadcast use group_hash_axioms;
        match self.messages.get(&number) {
            Some(message) => message.channel_id.0 == channel,
            None => false,
        }
    }

    /// Whether the message `child` names `parent` as a parent.
    fn names(&self, child: u128, parent: u128) -> (named: bool)
        requires
            self@.messages.contains_key(child),
        ensures
            named == names_parent(self@.messages, child, parent),
    {
        broadcast use group_hash_axioms;
        match self.messages.get(&child) {
            Some(message) => {
                let mut i: usize = 0;
                while i < message.parent_hashes.len()
                    invariant
                        i <= message.parent_hashes.len(),
                        self@.messages.contains_key(child),
                        message@ == self@.messages[child],
                        forall|j: int|
                            0 <= j < i ==> (#[trigger] message.parent_hashes@[j]).0 != parent,
                    decreases message.parent_hashes.len() - i,
                {
                    if message.parent_hashes[i].0 == parent {
                        assert(message.parent_hashes@[i as int] == MessageId(parent));
                        return true;
                    }
                    i = i + 1;
                }
                proof {
                    if message.parent_hashes@.contains(MessageId(parent)) {
                        let j = choose|j: int|
                            0 <= j < message.parent_hashes@.len() && message.parent_hashes@[j]
                                == MessageId(parent);
                        assert(message.parent_hashes@[j].0 == parent);
                    }
                }
                false
            },
            None => false,
        }
    }

    /// Whether every parent of the message `number` within `channel` is in
    /// `done`.
    fn is_ready(&self, channel: u128, done: &HashSet<u128>, number: u128) -> (free: bool)
        requires
            self@.messages.contains_key(number),
        ensures
            free == ready(self@.messages, channel, done@, number),
    {
        broadcast use group_hash_axioms;
        match self.messages.get(&number) {
            Some(message) => {
                let mut i: usize = 0;
                while i < message.parent_hashes.len()
                    invariant
                        i <= message.parent_hashes.len(),
                        self@.messages.contains_key(number),
                        message@ == self@.messages[number],
                        forall|j: int|
                            0 <= j < i && in_channel(
                                self@.messages,
                                channel,
                                (#[trigger] message.parent_hashes@[j]).0,
                            ) ==> done@.contains(message.parent_hashes@[j].0),
                    decreases message.parent_hashes.len() - i,
                {
                    let parent = message.parent_hashes[i].0;
                    if self.holds_in_channel(channel, parent) && !done.contains(&parent) {
                        assert(self@.messages[number].parent_hashes[i as int].0 == parent);
                        return false;
                    }
                    i = i + 1;
                }
                true
            },
            None => false,
        }
    }

    /// The keys of the messages of `channel`, in increasing order.
    fn channel_keys(&self, channel: u128) -> (keys: Vec<(u64, u128)>)
        ensures
            lists_channel(self@.messages, channel, keys@),
    {
        broadcast use group_hash_axioms;
        let numbers = map_keys(&self.messages);
        let mut keys: Vec<(u64, u128)> = Vec::new();
        let mut i: usize = 0;
        while i < numbers.len()
            invariant
                i <= numbers.len(),
                numbers@.to_set() == self.messages@.dom(),
                increasing(keys@),
                forall|key: (u64, u128)| #[trigger]
                    keys@.contains(key) <==> numbers@.take(i as int).contains(key.1) && in_channel(
                        self@.messages,
                        channel,
                        key.1,
                    ) && key == order_key(self@.messages, key.1),
            decreases numbers.len() - i,
        {
            let number = numbers[i];
            proof {
                lemma_take_next(numbers@, i as int);
            }
            let ghost before = keys@;
            match self.messages.get(&number) {
                Some(message) => {
                    if message.channel_id.0 == channel {
                        insert_in_order(&mut keys, (message.lamport_timestamp, number));
                    }
                },
                None => {},
            }
            proof {
                assert forall|key: (u64, u128)| #[trigger]
                    keys@.contains(key) <==> numbers@.take(i + 1).contains(key.1) && in_channel(
                        self@.messages,
                        channel,
                        key.1,
                    ) && key == order_key(self@.messages, key.1) by {
                    assert(keys@.contains(key) <==> keys@.to_set().contains(key));
                    assert(before.contains(key) <==> before.to_set().contains(key));
                    assert(before.contains(key) <==> numbers@.take(i as int).contains(key.1)
                        && in_channel(self@.messages, channel, key.1) && key == order_key(
                        self@.messages,
                        key.1,
                    ));
                }
            }
            i = i + 1;
        }
        proof {
            lemma_take_all(numbers@);
            assert forall|key: (u64, u128)| #[trigger]
                keys@.contains(key) <==> in_channel(self@.messages, channel, key.1) && key
                    == order_key(self@.messages, key.1) by {
                if in_channel(self@.messages, channel, key.1) {
                    assert(numbers@.to_set().contains(key.1));
                }
            }
        }
        keys
    }

    /// Queues up, behind what `queue` holds, those messages of `keys` that
    /// are free once `done` is placed.
    fn enqueue_free(
        &self,
        channel: u128,
        done: &HashSet<u128>,
        keys: &Vec<(u64, u128)>,
        queue: &mut Vec<(u64, u128)>,
    )
        requires
            forall|i: int| 0 <= i < keys@.len() ==> self@.messages.contains_key(#[trigger] keys@[i].1),
        ensures
            final(queue)@ == old(queue)@ + free_among(self@.messages, channel, done@, keys@),
    {
        let mut i: usize = 0;
        assert(queue@ =~= old(queue)@ + free_among(self@.messages, channel, done@, keys@.take(0)));
        while i < keys.len()
            invariant
                i <= keys.len(),
                forall|i: int|
                    0 <= i < keys@.len() ==> self@.messages.contains_key(#[trigger] keys@[i].1),
                queue@ == old(queue)@ + free_among(
                    self@.messages,
                    channel,
                    done@,
                    keys@.take(i as int),
                ),
            decreases keys.len() - i,
        {
            let key = keys[i];
            proof {
                lemma_selection_next(self@.messages, channel, done@, 0, keys@, i as int);
            }
            if self.is_ready(channel, done, key.1) {
                queue.push(key);
            }
            assert(queue@ =~= old(queue)@ + free_among(
                self@.messages,
                channel,
                done@,
                keys@.take(i + 1),
            ));
            i = i + 1;
        }
        proof {
            lemma_take_all(keys@);
        }
    }

    /// For every message that one of `listing` names as a parent, those of
    /// `listing` that name it, in the order of `listing`.
    fn children_lists(&self, listing: &Vec<(u64, u128)>) -> (lists: HashMap<u128, Vec<(u64, u128)>>)
        requires
            increasing(listing@),
            forall|i: int|
                0 <= i < listing@.len() ==> self@.messages.contains_key(#[trigger] listing@[i].1),
        ensures
            forall|parent: u128|
                #![trigger list_at(lists@, parent)]
                list_at(lists@, parent) == children_among(self@.messages, parent, listing@),
    {
        broadcast use group_hash_axioms;
        let mut lists: HashMap<u128, Vec<(u64, u128)>> = HashMap::new();
        let mut i: usize = 0;
        while i < listing.len()
            invariant
                i <= listing.len(),
                increasing(listing@),
                forall|i: int|
                    0 <= i < listing@.len() ==> self@.messages.contains_key(
                        #[trigger] listing@[i].1,
                    ),
                forall|parent: u128|
                    #![trigger list_at(lists@, parent)]
                    list_at(lists@, parent) == children_among(
                        self@.messages,
                        parent,
                        listing@.take(i as int),
                    ),
            decreases listing.len() - i,
        {
            let key = listing[i];
            let ghost earlier = lists@;
            match self.messages.get(&key.1) {
                Some(message) => {
                    let ghost parents = message.parent_hashes@;
                    let mut j: usize = 0;
                    while j < message.parent_hashes.len()
                        invariant
                            j <= message.parent_hashes.len(),
                            i < listing.len(),
                            key == listing@[i as int],
                            increasing(listing@),
                            parents == message.parent_hashes@,
                            forall|parent: u128|
                                #![trigger list_at(earlier, parent)]
                                list_at(earlier, parent) == children_among(
                                    self@.messages,
                                    parent,
                                    listing@.take(i as int),
                                ),
                            forall|parent: u128|
                                #![trigger list_at(lists@, parent)]
                                list_at(lists@, parent) == if id_numbers(
                                    parents.take(j as int),
                                ).contains(parent) {
                                    list_at(earlier, parent).push(key)
                                } else {
                                    list_at(earlier, parent)
                                },
                        decreases message.parent_hashes.len() - j,
                    {
                        let parent = message.parent_hashes[j].0;
                        let ghost before = lists@;
                        proof {
                            lemma_take_next(parents, j as int);
                            assert(id_numbers(parents.take(j + 1)) =~= id_numbers(
                                parents.take(j as int),
                            ).insert(parent));
                            assert(list_at(before, parent) == if id_numbers(
                                parents.take(j as int),
                            ).contains(parent) {
                                list_at(earlier, parent).push(key)
                            } else {
                                list_at(earlier, parent)
                            });
                            assert(list_at(earlier, parent) == children_among(
                                self@.messages,
                                parent,
                                listing@.take(i as int),
                            ));
                            lemma_children_are_earlier(
                                self@.messages,
                                parent,
                                listing@,
                                i as int,
                            );
                        }
                        let mut list = match lists.remove(&parent) {
                            Some(list) => list,
                            None => Vec::new(),
                        };
                        let known = list.len() > 0 && list[list.len() - 1].0 == key.0 && list[list.len()
                            - 1].1 == key.1;
                        if !known {
                            list.push(key);
                        }
                        lists.insert(parent, list);
                        proof {
                            assert forall|other: u128|
                                #![trigger list_at(lists@, other)]
                                list_at(lists@, other) == if id_numbers(
                                    parents.take(j + 1),
                                ).contains(other) {
                                    list_at(earlier, other).push(key)
                                } else {
                                    list_at(earlier, other)
                                } by {
                                assert(list_at(before, other) == if id_numbers(
                                    parents.take(j as int),
                                ).contains(other) {
                                    list_at(earlier, other).push(key)
                                } else {
                                    list_at(earlier, other)
                                });
                                if other != parent {
                                    assert(list_at(lists@, other) == list_at(before, other));
                                }
                            }
                        }
                        j = j + 1;
                    }
                    proof {
                        lemma_take_all(parents);
                        assert forall|parent: u128|
                            #![trigger list_at(lists@, parent)]
                            list_at(lists@, parent) == children_among(
                                self@.messages,
                                parent,
                                listing@.take(i + 1),
                            ) by {
                            lemma_selection_next(
                                self@.messages,
                                0,
                                Set::empty(),
                                parent,
                                listing@,
                                i as int,
                            );
                            assert(list_at(earlier, parent) == children_among(
                                self@.messages,
                                parent,
                                listing@.take(i as int),
                            ));
                            assert(names_parent(self@.messages, key.1, parent) == id_numbers(
                                parents,
                            ).contains(parent));
                        }
                    }
                },
                None => {},
            }
            i = i + 1;
        }
        proof {
            lemma_take_all(listing@);
        }
        lists
    }

    /// The messages of a channel in causal order: every message behind all
    /// its parents, and the same sequence wherever the same messages are
    /// held.
    ///
    /// The order is that of Kahn's algorithm. Parents in other channels do
    /// not count. Messages that become free together come in the order of
    /// their Lamport timestamps, then of their identifiers.
    pub fn get_ordered_messages(&self, channel_id: &ChannelId) -> (ordered: Vec<Message>)
        ensures
            ordered@.len() == causal_order(self@.messages, channel_id.0).len(),
            forall|i: int|
                0 <= i < ordered@.len() ==> (#[trigger] ordered@[i])@
                    == self@.messages[causal_order(self@.messages, channel_id.0)[i]],
            forall|i: int|
                0 <= i < ordered@.len() ==> in_channel(
                    self@.messages,
                    channel_id.0,
                    #[trigger] causal_order(self@.messages, channel_id.0)[i],
                ),
            causal_order(self@.messages, channel_id.0).no_duplicates(),
            parents_first(self@.messages, causal_order(self@.messages, channel_id.0)),
            leaves_out_only_behind_cycles(
                self@.messages,
                channel_id.0,
                causal_order(self@.messages, channel_id.0),
            ),
    {
        broadcast use group_hash_axioms;
        let channel = channel_id.0;
        let listing = self.channel_keys(channel);
        let total = listing.len();
        proof {
            lemma_listing_is_unique(self@.messages, channel, listing@);
            lemma_start_is_sound(self@.messages, channel, listing@);
        }
        let mut done: HashSet<u128> = HashSet::new();
        let mut queue: Vec<(u64, u128)> = Vec::new();
        proof {
            assert forall|i: int| 0 <= i < listing@.len() implies self@.messages.contains_key(
                #[trigger] listing@[i].1,
            ) by {
                assert(listing@.contains(listing@[i]));
            }
        }
        let lists = self.children_lists(&listing);
        let none: Vec<(u64, u128)> = Vec::new();
        self.enqueue_free(channel, &done, &listing, &mut queue);
        let mut ordered: Vec<Message> = Vec::new();
        let ghost mut placed: Seq<u128> = Seq::empty();
        let mut head: usize = 0;
        proof {
            assert(queue@.subrange(0, queue@.len() as int) =~= roots(self@.messages, channel));
            assert(placed + causal_order(self@.messages, channel) =~= causal_order(
                self@.messages,
                channel,
            ));
        }
        while head < queue.len()
            invariant
                head <= queue.len(),
                total == listing@.len(),
                listing@ == channel_listing(self@.messages, channel),
                lists_channel(self@.messages, channel, listing@),
                none@.len() == 0,
                forall|parent: u128|
                    #![trigger list_at(lists@, parent)]
                    list_at(lists@, parent) == children_among(self@.messages, parent, listing@),
                ordered@.len() == placed.len(),
                placed.len() <= total,
                forall|i: int|
                    0 <= i < ordered@.len() ==> (#[trigger] ordered@[i])@
                        == self@.messages[placed[i]],
                sound(
                    self@.messages,
                    channel,
                    listing@,
                    placed,
                    queue@.subrange(head as int, queue@.len() as int),
                    done@,
                ),
                placed + kahn(
                    self@.messages,
                    channel,
                    queue@.subrange(head as int, queue@.len() as int),
                    done@,
                    (total - placed.len()) as nat,
                ) == causal_order(self@.messages, channel),
            decreases total - placed.len(),
        {
            let ghost waiting = queue@.subrange(head as int, queue@.len() as int);
            let ghost done_before = done@;
            let ghost queue_before = queue@;
            let first = queue[head];
            proof {
                assert(waiting[0] == first);
                assert(listing@.contains(waiting[0]));
                lemma_step_is_sound(
                    self@.messages,
                    channel,
                    listing@,
                    placed,
                    waiting,
                    done_before,
                );
            }
            head = head + 1;
            match self.messages.get(&first.1) {
                Some(message) => {
                    ordered.push(message.clone());
                },
                None => {},
            }
            done.insert(first.1);
            let children = match lists.get(&first.1) {
                Some(children) => children,
                None => &none,
            };
            proof {
                assert(children@ == list_at(lists@, first.1));
                lemma_children_among(self@.messages, first.1, listing@);
                assert forall|i: int| 0 <= i < children@.len() implies self@.messages.contains_key(
                    #[trigger] children@[i].1,
                ) by {
                    assert(children@.contains(children@[i]));
                    assert(listing@.contains(children@[i]));
                }
            }
            self.enqueue_free(channel, &done, children, &mut queue);
            proof {
                let freed = freed_by(self@.messages, channel, done@, first.1);
                assert(queue@.subrange(head as int, queue@.len() as int) =~= waiting.drop_first()
                    + freed);
                let rest = kahn(
                    self@.messages,
                    channel,
                    waiting.drop_first() + freed,
                    done@,
                    (total - placed.len() - 1) as nat,
                );
                assert(kahn(
                    self@.messages,
                    channel,
                    waiting,
                    done_before,
                    (total - placed.len()) as nat,
                ) == seq![first.1] + rest);
                assert(placed.push(first.1) + rest =~= placed + (seq![first.1] + rest));
                placed = placed.push(first.1);
            }
        }
        proof {
            assert(queue@.subrange(head as int, queue@.len() as int).len() == 0);
            assert(placed + Seq::<u128>::empty() =~= placed);
            assert forall|i: int| 0 <= i < placed.len() implies in_channel(
                self@.messages,
                channel,
                #[trigger] placed[i],
            ) by {
                assert(listing@.contains(order_key(self@.messages, placed[i])));
            }
            assert forall|number: u128|
                in_channel(self@.messages, channel, number) && !(#[trigger] placed.contains(
                    number,
                )) implies !ready(self@.messages, channel, placed.to_set(), number) by {
                if ready(self@.messages, channel, done@, number) {
                    assert(done@.contains(number));
                    assert(placed.to_set().contains(number));
                }
            }
        }
        ordered
    }
}

} // verus!
