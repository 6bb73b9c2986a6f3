//! The message graph: the causal order of the messages of every channel.
//!
//! A message names as its parents the messages that were the heads of its
//! channel when it was made. The graph keeps every message it has admitted,
//! for every message the messages that name it as a parent, and for every
//! channel its heads: the messages of the channel that none names yet.

use vstd::prelude::*;
use vstd::std_specs::hash::*;
use std::collections::{HashMap, HashSet};
use crate::collect::{lemma_take_all, lemma_take_next, map_keys, set_items};
use crate::ids::{ChannelId, MessageId};
use crate::message::{Message, MessageView};
use crate::setmap::{items_at, lemma_equal_items_equal_states, SetMap};

pub mod gossip;
pub mod load;
pub mod order;
pub mod walk;

verus! {

/// Why a message was not admitted.
#[derive(Debug)]
pub enum DagError {
    /// The message names a parent that the graph does not hold.
    MissingParent { message_id: MessageId, missing_parent: MessageId },
}

/// The message graph of one peer, across all channels.
pub struct MessageDAG {
    /// The messages, by the number of their identifier.
    messages: HashMap<u128, Message>,
    /// For a message, the messages that name it as a parent.
    children: SetMap<u128>,
    /// For a channel, its heads.
    heads: SetMap<u128>,
}

/// The graph as a mathematical value.
pub struct DagView {
    /// The messages held, by the number of their identifier.
    pub messages: Map<u128, MessageView>,
    /// For the number of a message, the numbers of the messages linked to
    /// it as its children.
    pub children: Map<u128, Set<u128>>,
    /// For the number of a channel, the numbers of its heads.
    pub heads: Map<u128, Set<u128>>,
}

/// The numbers of the identifiers in `ids`.
pub open spec fn id_numbers(ids: Seq<MessageId>) -> Set<u128> {
    Set::new(|number: u128| ids.contains(MessageId(number)))
}

/// Every message is held under the number of its own identifier.
pub open spec fn keyed_by_id(messages: Map<u128, MessageView>) -> bool {
    forall|number: u128| #[trigger]
        messages.contains_key(number) ==> messages[number].id.0 == number
}

/// The first parent of `message` that `messages` lacks stands at `index`.
pub open spec fn first_missing_parent(
    messages: Map<u128, MessageView>,
    message: MessageView,
    index: int,
) -> bool {
    &&& 0 <= index < message.parent_hashes.len()
    &&& !messages.contains_key(message.parent_hashes[index].0)
    &&& forall|j: int| 0 <= j < index ==> messages.contains_key(#[trigger] message.parent_hashes[j].0)
}

/// `messages` holds every parent of `message`.
pub open spec fn parents_present(messages: Map<u128, MessageView>, message: MessageView) -> bool {
    forall|j: int|
        0 <= j < message.parent_hashes.len() ==> messages.contains_key(
            #[trigger] message.parent_hashes[j].0,
        )
}

/// The child links after `child` has been linked to each of `parents`.
pub open spec fn linked(children: Map<u128, Set<u128>>, parents: Set<u128>, child: u128) -> Map<
    u128,
    Set<u128>,
> {
    Map::new(
        |parent: u128| children.contains_key(parent) || parents.contains(parent),
        |parent: u128|
            if parents.contains(parent) {
                items_at(children, parent).insert(child)
            } else {
                children[parent]
            },
    )
}

/// The heads after a message `id` of `channel` with the given `parents` has
/// come: in its channel the parents are heads no longer, and the message is
/// one.
pub open spec fn advanced(heads: Map<u128, Set<u128>>, channel: u128, parents: Set<u128>, id: u128) -> Map<
    u128,
    Set<u128>,
> {
    heads.insert(channel, items_at(heads, channel).difference(parents).insert(id))
}

/// The graph after it has admitted `message`.
pub open spec fn admitted(dag: DagView, message: MessageView) -> DagView {
    DagView {
        messages: dag.messages.insert(message.id.0, message),
        children: linked(dag.children, id_numbers(message.parent_hashes), message.id.0),
        heads: advanced(
            dag.heads,
            message.channel_id.0,
            id_numbers(message.parent_hashes),
            message.id.0,
        ),
    }
}

/// `number` is named as a parent by a message of `messages` and is not held
/// itself.
pub open spec fn is_missing(messages: Map<u128, MessageView>, number: u128) -> bool {
    &&& !messages.contains_key(number)
    &&& exists|child: u128| #[trigger]
        messages.contains_key(child) && id_numbers(messages[child].parent_hashes).contains(number)
}

impl View for MessageDAG {
    type V = DagView;

    closed spec fn view(&self) -> DagView {
        DagView {
            messages: self.messages@.map_values(|message: Message| message@),
            children: self.children@,
            heads: self.heads@,
        }
    }
}

impl MessageDAG {
    /// Every message is held under the number of its own identifier. The
    /// empty graph is so, and no operation of the graph undoes it.
    pub open spec fn wf(&self) -> bool {
        keyed_by_id(self@.messages)
    }

    /// The empty graph.
    pub fn new() -> (dag: Self)
        ensures
            dag@.messages == Map::<u128, MessageView>::empty(),
            dag@.children == Map::<u128, Set<u128>>::empty(),
            dag@.heads == Map::<u128, Set<u128>>::empty(),
            dag.wf(),
    {
        let dag = MessageDAG {
            messages: HashMap::new(),
            children: SetMap::new(),
            heads: SetMap::new(),
        };
        assert(dag@.messages =~= Map::<u128, MessageView>::empty());
        dag
    }

    /// Admits `message`, if the graph holds all its parents.
    ///
    /// Where a parent is missing, nothing changes and the error names the
    /// first such parent. Else the message is linked to each parent as its
    /// child, its parents leave the heads of its channel, it becomes a head
    /// itself, and it is stored.
    ///
    /// The graph does not look whether it holds the message already: to
    /// admit a message a second time is an error of the caller, by which the
    /// message becomes a head again whatever children it has.
    pub fn add_message(&mut self, message: Message) -> (result: Result<(), DagError>)
        ensures
            match result {
                Ok(()) => {
                    &&& parents_present(old(self)@.messages, message@)
                    &&& final(self)@ == admitted(old(self)@, message@)
                },
                Err(DagError::MissingParent { message_id, missing_parent }) => {
                    &&& message_id == message.id
                    &&& exists|index: int|
                        first_missing_parent(old(self)@.messages, message@, index)
                            && missing_parent == message@.parent_hashes[index]
                    &&& final(self)@ == old(self)@
                },
            },
            old(self).wf() ==> final(self).wf(),
    {
        broadcast use group_hash_axioms;
        let message_id = message.id;
        let channel_id = message.channel_id;
        let count = message.parent_hashes.len();
        let ghost parents = message.parent_hashes@;

        let mut i: usize = 0;
        while i < count
            invariant
                i <= count,
                count == parents.len(),
                parents == message.parent_hashes@,
                message_id == message.id,
                channel_id == message.channel_id,
                *self == *old(self),
                forall|j: int| 0 <= j < i ==> self@.messages.contains_key(#[trigger] parents[j].0),
            decreases count - i,
        {
            if !self.messages.contains_key(&message.parent_hashes[i].0) {
                assert(first_missing_parent(old(self)@.messages, message@, i as int));
                return Err(
                    DagError::MissingParent {
                        message_id,
                        missing_parent: message.parent_hashes[i],
                    },
                );
            }
            i = i + 1;
        }

        let mut i: usize = 0;
        while i < count
            invariant
                i <= count,
                count == parents.len(),
                parents == message.parent_hashes@,
                message_id == message.id,
                channel_id == message.channel_id,
                self.messages == old(self).messages,
                self.children == old(self).children,
                forall|channel: u128|
                    #![trigger items_at(self.heads@, channel)]
                    items_at(self.heads@, channel) == if channel == channel_id.0 {
                        items_at(old(self).heads@, channel).difference(
                            id_numbers(parents.take(i as int)),
                        )
                    } else {
                        items_at(old(self).heads@, channel)
                    },
            decreases count - i,
        {
            let ghost before = self.heads@;
            self.heads.remove_item(&channel_id.0, message.parent_hashes[i].0);
            proof {
                lemma_take_next(parents, i as int);
                assert forall|channel: u128|
                    #![trigger items_at(self.heads@, channel)]
                    items_at(self.heads@, channel) == if channel == channel_id.0 {
                        items_at(old(self).heads@, channel).difference(
                            id_numbers(parents.take(i + 1)),
                        )
                    } else {
                        items_at(old(self).heads@, channel)
                    } by {
                    assert(items_at(before, channel) == if channel == channel_id.0 {
                        items_at(old(self).heads@, channel).difference(
                            id_numbers(parents.take(i as int)),
                        )
                    } else {
                        items_at(old(self).heads@, channel)
                    });
                    if channel == channel_id.0 {
                        assert(items_at(self.heads@, channel) =~= items_at(before, channel).remove(
                            parents[i as int].0,
                        ));
                        assert(id_numbers(parents.take(i + 1)) =~= id_numbers(
                            parents.take(i as int),
                        ).insert(parents[i as int].0));
                        assert(items_at(self.heads@, channel) =~= items_at(
                            old(self).heads@,
                            channel,
                        ).difference(id_numbers(parents.take(i + 1))));
                    }
                }
            }
            i = i + 1;
        }
        let ghost heads_cut = self.heads@;

        let mut i: usize = 0;
        while i < count
            invariant
                i <= count,
                count == parents.len(),
                parents == message.parent_hashes@,
                message_id == message.id,
                channel_id == message.channel_id,
                self.messages == old(self).messages,
                self.heads@ == heads_cut,
                forall|parent: u128|
                    #![trigger items_at(self.children@, parent)]
                    items_at(self.children@, parent) == if id_numbers(
                        parents.take(i as int),
                    ).contains(parent) {
                        items_at(old(self).children@, parent).insert(message_id.0)
                    } else {
                        items_at(old(self).children@, parent)
                    },
            decreases count - i,
        {
            let ghost before = self.children@;
            self.children.insert(message.parent_hashes[i].0, message_id.0);
            proof {
                lemma_take_next(parents, i as int);
                assert forall|parent: u128|
                    #![trigger items_at(self.children@, parent)]
                    items_at(self.children@, parent) == if id_numbers(
                        parents.take(i + 1),
                    ).contains(parent) {
                        items_at(old(self).children@, parent).insert(message_id.0)
                    } else {
                        items_at(old(self).children@, parent)
                    } by {
                    assert(items_at(before, parent) == if id_numbers(
                        parents.take(i as int),
                    ).contains(parent) {
                        items_at(old(self).children@, parent).insert(message_id.0)
                    } else {
                        items_at(old(self).children@, parent)
                    });
                    assert(id_numbers(parents.take(i + 1)).contains(parent) <==> id_numbers(
                        parents.take(i as int),
                    ).contains(parent) || parent == parents[i as int].0);
                    if parent == parents[i as int].0 {
                        assert(items_at(self.children@, parent) =~= items_at(
                            old(self).children@,
                            parent,
                        ).insert(message_id.0));
                    }
                }
            }
            i = i + 1;
        }

        self.heads.insert(channel_id.0, message_id.0);
        self.messages.insert(message_id.0, message);
        proof {
            lemma_take_all(parents);
            let goal = admitted(old(self)@, message@);
            assert(self@.messages =~= goal.messages);
            self.children.lemma_no_empty_set();
            old(self).children.lemma_no_empty_set();
            self.heads.lemma_no_empty_set();
            old(self).heads.lemma_no_empty_set();
            assert forall|parent: u128| items_at(self@.children, parent) == #[trigger] items_at(
                goal.children,
                parent,
            ) by {
                assert(items_at(self.children@, parent) == if id_numbers(parents).contains(
                    parent,
                ) {
                    items_at(old(self).children@, parent).insert(message_id.0)
                } else {
                    items_at(old(self).children@, parent)
                });
            }
            assert forall|parent: u128| #[trigger]
                goal.children.contains_key(parent) implies !goal.children[parent].is_empty() by {
                if id_numbers(parents).contains(parent) {
                    assert(goal.children[parent].contains(message_id.0));
                }
            }
            lemma_equal_items_equal_states(self@.children, goal.children);
            assert forall|channel: u128| items_at(self@.heads, channel) == #[trigger] items_at(
                goal.heads,
                channel,
            ) by {
                assert(items_at(heads_cut, channel) == if channel == channel_id.0 {
                    items_at(old(self).heads@, channel).difference(id_numbers(parents))
                } else {
                    items_at(old(self).heads@, channel)
                });
            }
            assert forall|channel: u128| #[trigger]
                goal.heads.contains_key(channel) implies !goal.heads[channel].is_empty() by {
                if channel == channel_id.0 {
                    assert(goal.heads[channel].contains(message_id.0));
                }
            }
            lemma_equal_items_equal_states(self@.heads, goal.heads);
        }
        Ok(())
    }

    /// The first parent of `message` that the graph does not hold; none
    /// where it holds them all, so that the message can be admitted.
    pub fn first_missing(&self, message: &Message) -> (missing: Option<MessageId>)
        ensures
            match missing {
                None => parents_present(self@.messages, message@),
                Some(parent) => exists|index: int|
                    first_missing_parent(self@.messages, message@, index) && parent
                        == message@.parent_hashes[index],
            },
    {
        broadcast use group_hash_axioms;
        let mut i: usize = 0;
        while i < message.parent_hashes.len()
            invariant
                i <= message.parent_hashes.len(),
                forall|j: int|
                    0 <= j < i ==> self@.messages.contains_key(
                        #[trigger] message.parent_hashes@[j].0,
                    ),
            decreases message.parent_hashes.len() - i,
        {
            if !self.messages.contains_key(&message.parent_hashes[i].0) {
                assert(first_missing_parent(self@.messages, message@, i as int));
                return Some(message.parent_hashes[i]);
            }
            i = i + 1;
        }
        None
    }

    /// The heads of a channel, each once, in no particular order: the
    /// messages that a new message of the channel names as its parents.
    pub fn get_heads(&self, channel_id: &ChannelId) -> (heads: Vec<MessageId>)
        ensures
            heads@.no_duplicates(),
            forall|id: MessageId|
                heads@.contains(id) <==> items_at(self@.heads, channel_id.0).contains(id.0),
    {
        broadcast use group_hash_axioms;
        let numbers = self.heads.items(&channel_id.0);
        let heads = MessageId::from_numbers(&numbers);
        proof {
            assert forall|id: MessageId|
                heads@.contains(id) <==> items_at(self@.heads, channel_id.0).contains(id.0) by {
                assert(numbers@.contains(id.0) <==> numbers@.to_set().contains(id.0));
            }
        }
        heads
    }

    /// The message with the identifier `message_id`, if the graph holds it.
    pub fn get_message(&self, message_id: &MessageId) -> (found: Option<&Message>)
        ensures
            match found {
                Some(message) => self@.messages.contains_key(message_id.0) && message@
                    == self@.messages[message_id.0],
                None => !self@.messages.contains_key(message_id.0),
            },
    {
        broadcast use group_hash_axioms;
        self.messages.get(&message_id.0)
    }

    /// All messages of the graph, each once, in no particular order.
    pub fn all_messages(&self) -> (all: Vec<&Message>)
        ensures
            exists|numbers: Seq<u128>|
                {
                    &&& numbers.no_duplicates()
                    &&& numbers.to_set() == self@.messages.dom()
                    &&& numbers.len() == all@.len()
                    &&& forall|i: int|
                        0 <= i < all@.len() ==> (#[trigger] all@[i])@ == self@.messages[numbers[i]]
                },
    {
        broadcast use group_hash_axioms;
        let numbers = map_keys(&self.messages);
        let mut all: Vec<&Message> = Vec::new();
        let mut i: usize = 0;
        while i < numbers.len()
            invariant
                i <= numbers.len(),
                numbers@.to_set() == self.messages@.dom(),
                all@.len() == i,
                forall|j: int|
                    0 <= j < i ==> (#[trigger] all@[j])@ == self@.messages[numbers@[j]],
            decreases numbers.len() - i,
        {
            assert(numbers@.to_set().contains(numbers@[i as int]));
            match self.messages.get(&numbers[i]) {
                Some(message) => {
                    all.push(message);
                },
                None => {},
            }
            i = i + 1;
        }
        proof {
            assert(self@.messages.dom() =~= self.messages@.dom());
        }
        all
    }

    /// The identifiers that messages of the graph name as a parent and that
    /// the graph does not hold, each once, in no particular order.
    pub fn find_missing_messages(&self) -> (missing: Vec<MessageId>)
        ensures
            missing@.no_duplicates(),
            forall|id: MessageId| missing@.contains(id) <==> is_missing(self@.messages, id.0),
    {
        broadcast use group_hash_axioms;
        let mut found: HashSet<u128> = HashSet::new();
        let numbers = map_keys(&self.messages);
        let mut i: usize = 0;
        while i < numbers.len()
            invariant
                i <= numbers.len(),
                numbers@.to_set() == self.messages@.dom(),
                forall|number: u128|
                    found@.contains(number) <==> !self@.messages.contains_key(number) && exists|
                        a: int,
                    |
                        0 <= a < i && id_numbers(
                            #[trigger] self@.messages[numbers@[a]].parent_hashes,
                        ).contains(number),
            decreases numbers.len() - i,
        {
            assert(numbers@.to_set().contains(numbers@[i as int]));
            match self.messages.get(&numbers[i]) {
                Some(message) => {
                    let ghost parents = message.parent_hashes@;
                    assert(parents == self@.messages[numbers@[i as int]].parent_hashes);
                    let mut j: usize = 0;
                    while j < message.parent_hashes.len()
                        invariant
                            j <= message.parent_hashes.len(),
                            i < numbers.len(),
                            parents == message.parent_hashes@,
                            parents == self@.messages[numbers@[i as int]].parent_hashes,
                            forall|number: u128|
                                found@.contains(number) <==> !self@.messages.contains_key(number)
                                    && ((exists|a: int|
                                    0 <= a < i && id_numbers(
                                        #[trigger] self@.messages[numbers@[a]].parent_hashes,
                                    ).contains(number)) || id_numbers(
                                    parents.take(j as int),
                                ).contains(number)),
                        decreases message.parent_hashes.len() - j,
                    {
                        let parent = message.parent_hashes[j].0;
                        proof {
                            lemma_take_next(parents, j as int);
                        }
                        if !self.messages.contains_key(&parent) {
                            found.insert(parent);
                        }
                        j = j + 1;
                    }
                    proof {
                        lemma_take_all(parents);
                    }
                },
                None => {},
            }
            i = i + 1;
        }
        let listed = set_items(&found);
        let missing = MessageId::from_numbers(&listed);
        proof {
            assert forall|id: MessageId| missing@.contains(id) <==> is_missing(
                self@.messages,
                id.0,
            ) by {
                assert(listed@.contains(id.0) <==> listed@.to_set().contains(id.0));
                if found@.contains(id.0) {
                    let a = choose|a: int|
                        0 <= a < numbers@.len() && id_numbers(
                            #[trigger] self@.messages[numbers@[a]].parent_hashes,
                        ).contains(id.0);
                    assert(numbers@.to_set().contains(numbers@[a]));
                    assert(self@.messages.contains_key(numbers@[a]));
                }
                if is_missing(self@.messages, id.0) {
                    let child = choose|child: u128| #[trigger]
                        self@.messages.contains_key(child) && id_numbers(
                            self@.messages[child].parent_hashes,
                        ).contains(id.0);
                    assert(numbers@.to_set().contains(child));
                    let a = choose|a: int| 0 <= a < numbers@.len() && numbers@[a] == child;
                    assert(id_numbers(self@.messages[numbers@[a]].parent_hashes).contains(id.0));
                }
            }
        }
        missing
    }

    /// The identifiers of all messages of the graph, each once, in no
    /// particular order.
    pub fn all_message_ids(&self) -> (ids: Vec<MessageId>)
        ensures
            ids@.no_duplicates(),
            forall|id: MessageId| ids@.contains(id) <==> self@.messages.contains_key(id.0),
    {
        broadcast use group_hash_axioms;
        let numbers = map_keys(&self.messages);
        let ids = MessageId::from_numbers(&numbers);
        proof {
            assert forall|id: MessageId| ids@.contains(id) <==> self@.messages.contains_key(
                id.0,
            ) by {
                assert(numbers@.contains(id.0) <==> numbers@.to_set().contains(id.0));
            }
        }
        ids
    }

    /// Whether the graph holds the message `message_id`.
    pub fn has_message(&self, message_id: &MessageId) -> (held: bool)
        ensures
            held == self@.messages.contains_key(message_id.0),
    {
        broadcast use group_hash_axioms;
        self.messages.contains_key(&message_id.0)
    }
}

impl Default for MessageDAG {
    fn default() -> (dag: Self)
        ensures
            dag@.messages == Map::<u128, MessageView>::empty(),
            dag.wf(),
    {
        MessageDAG::new()
    }
}

/// The graph lacks no parent: it holds every parent of every message it
/// holds.
pub open spec fn complete(messages: Map<u128, MessageView>) -> bool {
    forall|number: u128| #[trigger]
        messages.contains_key(number) ==> parents_present(messages, messages[number])
}

/// The message `number` is one of `channel` that no message of the channel
/// names as a parent.
pub open spec fn is_channel_sink(
    messages: Map<u128, MessageView>,
    channel: u128,
    number: u128,
) -> bool {
    &&& messages.contains_key(number)
    &&& messages[number].channel_id.0 == channel
    &&& forall|child: u128|
        messages.contains_key(child) && messages[child].channel_id.0 == channel ==> !id_numbers(
            (#[trigger] messages[child]).parent_hashes,
        ).contains(number)
}

/// The heads of every channel are the messages of the channel that no
/// message of the channel names as a parent.
pub open spec fn heads_are_sinks(dag: DagView) -> bool {
    forall|channel: u128, number: u128|
        #![trigger items_at(dag.heads, channel).contains(number)]
        items_at(dag.heads, channel).contains(number) <==> is_channel_sink(
            dag.messages,
            channel,
            number,
        )
}

/// The empty graph lacks no parent, and its heads are the sinks.
pub proof fn lemma_empty_graph_is_in_order(dag: DagView)
    requires
        dag.messages == Map::<u128, MessageView>::empty(),
        dag.heads == Map::<u128, Set<u128>>::empty(),
    ensures
        keyed_by_id(dag.messages),
        complete(dag.messages),
        heads_are_sinks(dag),
{
}

/// Admission keeps the graph in order: if the graph lacks no parent and its
/// heads are the sinks of their channels, the same holds once it has
/// admitted a new message all of whose parents it holds.
pub proof fn lemma_admission_keeps_order(dag: DagView, message: MessageView)
    requires
        keyed_by_id(dag.messages),
        complete(dag.messages),
        heads_are_sinks(dag),
        !dag.messages.contains_key(message.id.0),
        parents_present(dag.messages, message),
    ensures
        keyed_by_id(admitted(dag, message).messages),
        complete(admitted(dag, message).messages),
        heads_are_sinks(admitted(dag, message)),
{
    let after = admitted(dag, message);
    let id = message.id.0;
    let own = message.channel_id.0;
    let parents = id_numbers(message.parent_hashes);
    assert forall|number: u128| #[trigger] after.messages.contains_key(number) implies parents_present(
        after.messages,
        after.messages[number],
    ) by {
        if number != id {
            assert(parents_present(dag.messages, dag.messages[number]));
        }
    }
    // No message, old or new, names the new one as a parent.
    assert forall|child: u128| after.messages.contains_key(child) implies !id_numbers(
        (#[trigger] after.messages[child]).parent_hashes,
    ).contains(id) by {
        let named = after.messages[child].parent_hashes;
        if named.contains(MessageId(id)) {
            let at = choose|at: int| 0 <= at < named.len() && named[at] == MessageId(id);
            if child == id {
                assert(dag.messages.contains_key(message.parent_hashes[at].0));
            } else {
                assert(parents_present(dag.messages, dag.messages[child]));
                assert(dag.messages.contains_key(dag.messages[child].parent_hashes[at].0));
            }
        }
    }
    assert forall|channel: u128, number: u128|
        #![trigger items_at(after.heads, channel).contains(number)]
        items_at(after.heads, channel).contains(number) <==> is_channel_sink(
            after.messages,
            channel,
            number,
        ) by {
        assert(items_at(dag.heads, channel).contains(number) <==> is_channel_sink(
            dag.messages,
            channel,
            number,
        ));
        if number == id {
            if channel == own {
                assert(items_at(after.heads, channel).contains(number));
                assert(is_channel_sink(after.messages, channel, number));
            } else {
                assert(!is_channel_sink(dag.messages, channel, number));
            }
        } else if is_channel_sink(after.messages, channel, number) {
            assert(is_channel_sink(dag.messages, channel, number)) by {
                assert forall|child: u128|
                    dag.messages.contains_key(child) && dag.messages[child].channel_id.0
                        == channel implies !id_numbers(
                    (#[trigger] dag.messages[child]).parent_hashes,
                ).contains(number) by {
                    assert(after.messages.contains_key(child));
                    assert(after.messages[child] == dag.messages[child]);
                }
            }
            if channel == own {
                assert(after.messages.contains_key(id));
                assert(after.messages[id] == message);
                assert(!parents.contains(number));
            }
        } else if items_at(after.heads, channel).contains(number) {
            assert(is_channel_sink(dag.messages, channel, number));
            assert(channel == own ==> !parents.contains(number));
            assert forall|child: u128|
                after.messages.contains_key(child) && after.messages[child].channel_id.0
                    == channel implies !id_numbers(
                (#[trigger] after.messages[child]).parent_hashes,
            ).contains(number) by {
                if child != id {
                    assert(after.messages[child] == dag.messages[child]);
                    assert(dag.messages.contains_key(child));
                }
            }
            assert(is_channel_sink(after.messages, channel, number));
        }
    }
}

} // verus!
