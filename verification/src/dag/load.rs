//! Bulk load: how the graph is filled again from what the repository holds.
//!
//! Messages that were persisted may come back in any order, and some of
//! their parents may never have arrived. A bulk load takes them all the
//! same, and sets the heads anew afterwards.

use vstd::prelude::*;
use vstd::std_specs::hash::*;
use crate::collect::{lemma_take_all, lemma_take_next, map_keys};
use crate::dag::{id_numbers, keyed_by_id, linked, DagError, DagView, MessageDAG};
use crate::message::{views, Message, MessageView};
use crate::setmap::{items_at, lemma_equal_items_equal_states};

verus! {

/// Where a message made at `created_at` goes among `sorted`: behind the
/// last one that was made no later.
pub open spec fn place_by_time(sorted: Seq<MessageView>, created_at: u128) -> int
    decreases sorted.len(),
{
    if sorted.len() == 0 || sorted.last().created_at <= created_at {
        sorted.len() as int
    } else {
        place_by_time(sorted.drop_last(), created_at)
    }
}

/// `messages` in the order of their making; messages made at the same time
/// stay in the order in which they came.
pub open spec fn by_creation(messages: Seq<MessageView>) -> Seq<MessageView>
    decreases messages.len(),
{
    if messages.len() == 0 {
        Seq::empty()
    } else {
        let earlier = by_creation(messages.drop_last());
        earlier.insert(place_by_time(earlier, messages.last().created_at), messages.last())
    }
}

/// Where each message of [`by_creation`] stood in `messages`.
pub open spec fn origins(messages: Seq<MessageView>) -> Seq<int>
    decreases messages.len(),
{
    if messages.len() == 0 {
        Seq::empty()
    } else {
        let earlier = by_creation(messages.drop_last());
        origins(messages.drop_last()).insert(
            place_by_time(earlier, messages.last().created_at),
            messages.len() - 1,
        )
    }
}

/// `sorted` holds the messages of `messages`, each once, in the order of
/// their making, and those made at the same time in the order in which
/// they stood; `from` tells for each where it stood.
pub open spec fn stably_sorted(
    messages: Seq<MessageView>,
    sorted: Seq<MessageView>,
    from: Seq<int>,
) -> bool {
    &&& sorted.len() == messages.len()
    &&& from.len() == messages.len()
    &&& forall|k: int|
        0 <= k < sorted.len() ==> 0 <= #[trigger] from[k] < messages.len() && sorted[k]
            == messages[from[k]]
    &&& forall|k: int, l: int|
        0 <= k < l < sorted.len() ==> #[trigger] from[k] != #[trigger] from[l]
    &&& forall|k: int, l: int|
        0 <= k < l < sorted.len() ==> (#[trigger] sorted[k]).created_at < (
        #[trigger] sorted[l]).created_at || (sorted[k].created_at == sorted[l].created_at
            && from[k] < from[l])
}

/// Among messages in the order of their making, the place of a message is
/// behind all that were made no later and before all that were made later.
pub proof fn lemma_place_by_time(sorted: Seq<MessageView>, created_at: u128)
    requires
        forall|k: int, l: int|
            0 <= k < l < sorted.len() ==> (#[trigger] sorted[k]).created_at <= (
            #[trigger] sorted[l]).created_at,
    ensures
        0 <= place_by_time(sorted, created_at) <= sorted.len(),
        forall|k: int|
            0 <= k < place_by_time(sorted, created_at) ==> (#[trigger] sorted[k]).created_at
                <= created_at,
        forall|k: int|
            place_by_time(sorted, created_at) <= k < sorted.len() ==> (
            #[trigger] sorted[k]).created_at > created_at,
    decreases sorted.len(),
{
    if sorted.len() == 0 {
    } else if sorted.last().created_at <= created_at {
        assert forall|k: int| 0 <= k < sorted.len() implies (#[trigger] sorted[k]).created_at
            <= created_at by {
            if k < sorted.len() - 1 {
                assert(sorted[k].created_at <= sorted[sorted.len() - 1].created_at);
            }
        }
    } else {
        let shorter = sorted.drop_last();
        assert forall|k: int, l: int| 0 <= k < l < shorter.len() implies (
        #[trigger] shorter[k]).created_at <= (#[trigger] shorter[l]).created_at by {
            assert(sorted[k].created_at <= sorted[l].created_at);
        }
        lemma_place_by_time(shorter, created_at);
        let place = place_by_time(shorter, created_at);
        assert forall|k: int| 0 <= k < place implies (#[trigger] sorted[k]).created_at
            <= created_at by {
            assert(shorter[k].created_at <= created_at);
        }
        assert forall|k: int| place <= k < sorted.len() implies (#[trigger] sorted[k]).created_at
            > created_at by {
            if k < shorter.len() {
                assert(shorter[k].created_at > created_at);
            }
        }
    }
}

/// [`by_creation`] sorts, and sorts stably: it holds each of the messages
/// once, in the order of their making, and those made at the same time in
/// the order in which they came.
pub proof fn lemma_by_creation_is_stable(messages: Seq<MessageView>)
    ensures
        stably_sorted(messages, by_creation(messages), origins(messages)),
    decreases messages.len(),
{
    if messages.len() > 0 {
        let shorter = messages.drop_last();
        let earlier = by_creation(shorter);
        let stood = origins(shorter);
        lemma_by_creation_is_stable(shorter);
        let last = messages.last();
        assert forall|k: int, l: int| 0 <= k < l < earlier.len() implies (
        #[trigger] earlier[k]).created_at <= (#[trigger] earlier[l]).created_at by {
            assert(earlier[k].created_at < earlier[l].created_at || (earlier[k].created_at
                == earlier[l].created_at && stood[k] < stood[l]));
        }
        lemma_place_by_time(earlier, last.created_at);
        let place = place_by_time(earlier, last.created_at);
        let sorted = by_creation(messages);
        let from = origins(messages);
        assert(sorted == earlier.insert(place, last));
        assert(from == stood.insert(place, messages.len() - 1));
        let old_at = |k: int| if k < place { k } else { k - 1 };
        assert forall|k: int| 0 <= k < sorted.len() && k != place implies #[trigger] sorted[k]
            == earlier[old_at(k)] && from[k] == stood[old_at(k)] by {}
        assert(sorted[place] == last && from[place] == messages.len() - 1);
        assert forall|k: int| 0 <= k < sorted.len() implies 0 <= #[trigger] from[k]
            < messages.len() && sorted[k] == messages[from[k]] by {
            if k != place {
                assert(sorted[k] == earlier[old_at(k)]);
                assert(0 <= stood[old_at(k)] < shorter.len());
                assert(earlier[old_at(k)] == shorter[stood[old_at(k)]]);
            }
        }
        assert forall|k: int, l: int| 0 <= k < l < sorted.len() implies #[trigger] from[k]
            != #[trigger] from[l] by {
            if k != place && l != place {
                assert(sorted[k] == earlier[old_at(k)] && sorted[l] == earlier[old_at(l)]);
                assert(stood[old_at(k)] != stood[old_at(l)]);
            } else if k == place {
                assert(sorted[l] == earlier[old_at(l)]);
                assert(0 <= stood[old_at(l)] < shorter.len());
            } else {
                assert(sorted[k] == earlier[old_at(k)]);
                assert(0 <= stood[old_at(k)] < shorter.len());
            }
        }
        assert forall|k: int, l: int| 0 <= k < l < sorted.len() implies (
        #[trigger] sorted[k]).created_at < (#[trigger] sorted[l]).created_at || (
        sorted[k].created_at == sorted[l].created_at && from[k] < from[l]) by {
            if k != place && l != place {
                assert(sorted[k] == earlier[old_at(k)] && sorted[l] == earlier[old_at(l)]);
                assert(from[k] == stood[old_at(k)] && from[l] == stood[old_at(l)]);
                assert(earlier[old_at(k)].created_at < earlier[old_at(l)].created_at || (
                earlier[old_at(k)].created_at == earlier[old_at(l)].created_at && stood[old_at(k)]
                    < stood[old_at(l)]));
            } else if l == place {
                assert(sorted[k] == earlier[k] && from[k] == stood[k]);
                assert(earlier[k].created_at <= last.created_at);
                assert(0 <= stood[k] < shorter.len());
            } else {
                assert(sorted[l] == earlier[l - 1]);
                assert(earlier[l - 1].created_at > last.created_at);
            }
        }
    }
}

/// The graph after `message` has been stored without a look at whether its
/// parents are held: it is linked as a child to those that are. The heads
/// stay as they are.
pub open spec fn stored(dag: DagView, message: MessageView) -> DagView {
    DagView {
        messages: dag.messages.insert(message.id.0, message),
        children: linked(
            dag.children,
            id_numbers(message.parent_hashes).intersect(dag.messages.dom()),
            message.id.0,
        ),
        heads: dag.heads,
    }
}

/// The graph after each of `messages` has been [`stored`], in turn.
pub open spec fn stored_all(dag: DagView, messages: Seq<MessageView>) -> DagView
    decreases messages.len(),
{
    if messages.len() == 0 {
        dag
    } else {
        stored(stored_all(dag, messages.drop_last()), messages.last())
    }
}

/// The message `number` is one of `channel` to which no child is linked.
pub open spec fn is_sink_of(
    messages: Map<u128, MessageView>,
    children: Map<u128, Set<u128>>,
    channel: u128,
    number: u128,
) -> bool {
    &&& messages.contains_key(number)
    &&& messages[number].channel_id.0 == channel
    &&& !children.contains_key(number)
}

/// The heads as the child links give them: in every channel the messages
/// to which no child is linked.
pub open spec fn rebuilt_heads(
    messages: Map<u128, MessageView>,
    children: Map<u128, Set<u128>>,
) -> Map<u128, Set<u128>> {
    Map::new(
        |channel: u128| exists|number: u128| is_sink_of(messages, children, channel, number),
        |channel: u128| Set::new(|number: u128| is_sink_of(messages, children, channel, number)),
    )
}

/// The graph after a bulk load of `messages`: each is stored, in the order
/// of their making, and the heads are rebuilt from the child links.
pub open spec fn loaded(dag: DagView, messages: Seq<MessageView>) -> DagView {
    let filled = stored_all(dag, by_creation(messages));
    DagView {
        messages: filled.messages,
        children: filled.children,
        heads: rebuilt_heads(filled.messages, filled.children),
    }
}

/// Storing messages under their identifiers keeps every message under the
/// number of its own identifier.
pub proof fn lemma_stored_all_keeps_keys(dag: DagView, messages: Seq<MessageView>)
    requires
        keyed_by_id(dag.messages),
    ensures
        keyed_by_id(stored_all(dag, messages).messages),
    decreases messages.len(),
{
    if messages.len() > 0 {
        lemma_stored_all_keeps_keys(dag, messages.drop_last());
    }
}

impl MessageDAG {
    /// Stores `message` without a look at whether its parents are held, and
    /// links it as a child to those that are.
    fn store_unchecked(&mut self, message: Message)
        ensures
            final(self)@ == stored(old(self)@, message@),
    {
        broadcast use group_hash_axioms;
        let number = message.id.0;
        let count = message.parent_hashes.len();
        let ghost parents = message.parent_hashes@;
        let mut i: usize = 0;
        while i < count
            invariant
                i <= count,
                count == parents.len(),
                parents == message.parent_hashes@,
                number == message.id.0,
                self.messages == old(self).messages,
                self.heads == old(self).heads,
                forall|parent: u128|
                    #![trigger items_at(self.children@, parent)]
                    items_at(self.children@, parent) == if id_numbers(
                        parents.take(i as int),
                    ).contains(parent) && old(self)@.messages.contains_key(parent) {
                        items_at(old(self).children@, parent).insert(number)
                    } else {
                        items_at(old(self).children@, parent)
                    },
            decreases count - i,
        {
            let ghost before = self.children@;
            let parent_number = message.parent_hashes[i].0;
            if self.messages.contains_key(&parent_number) {
                self.children.insert(parent_number, number);
            }
            proof {
                lemma_take_next(parents, i as int);
                assert forall|parent: u128|
                    #![trigger items_at(self.children@, parent)]
                    items_at(self.children@, parent) == if id_numbers(
                        parents.take(i + 1),
                    ).contains(parent) && old(self)@.messages.contains_key(parent) {
                        items_at(old(self).children@, parent).insert(number)
                    } else {
                        items_at(old(self).children@, parent)
                    } by {
                    assert(items_at(before, parent) == if id_numbers(
                        parents.take(i as int),
                    ).contains(parent) && old(self)@.messages.contains_key(parent) {
                        items_at(old(self).children@, parent).insert(number)
                    } else {
                        items_at(old(self).children@, parent)
                    });
                    assert(id_numbers(parents.take(i + 1)).contains(parent) <==> id_numbers(
                        parents.take(i as int),
                    ).contains(parent) || parent == parents[i as int].0);
                    if parent == parent_number && old(self)@.messages.contains_key(parent) {
                        assert(items_at(self.children@, parent) =~= items_at(
                            old(self).children@,
                            parent,
                        ).insert(number));
                    }
                }
            }
            i = i + 1;
        }
        self.messages.insert(number, message);
        proof {
            lemma_take_all(parents);
            let goal = stored(old(self)@, message@);
            assert(self@.messages =~= goal.messages);
            self.children.lemma_no_empty_set();
            old(self).children.lemma_no_empty_set();
            let held = id_numbers(parents).intersect(old(self)@.messages.dom());
            assert forall|parent: u128| items_at(self@.children, parent) == #[trigger] items_at(
                goal.children,
                parent,
            ) by {
                assert(items_at(self.children@, parent) == if id_numbers(parents).contains(parent)
                    && old(self)@.messages.contains_key(parent) {
                    items_at(old(self).children@, parent).insert(number)
                } else {
                    items_at(old(self).children@, parent)
                });
                assert(held.contains(parent) <==> id_numbers(parents).contains(parent) && old(
                    self,
                )@.messages.contains_key(parent));
            }
            assert forall|parent: u128| #[trigger]
                goal.children.contains_key(parent) implies !goal.children[parent].is_empty() by {
                if held.contains(parent) {
                    assert(goal.children[parent].contains(number));
                }
            }
            lemma_equal_items_equal_states(self@.children, goal.children);
        }
    }

    /// Sets the heads anew from the child links: in every channel the
    /// messages to which no child is linked.
    fn rebuild_heads(&mut self)
        ensures
            final(self)@.messages == old(self)@.messages,
            final(self)@.children == old(self)@.children,
            final(self)@.heads == rebuilt_heads(old(self)@.messages, old(self)@.children),
    {
        broadcast use group_hash_axioms;
        self.heads.clear();
        let numbers = map_keys(&self.messages);
        let mut i: usize = 0;
        while i < numbers.len()
            invariant
                i <= numbers.len(),
                numbers@.to_set() == self.messages@.dom(),
                self.messages == old(self).messages,
                self.children == old(self).children,
                forall|channel: u128, number: u128|
                    #![trigger items_at(self.heads@, channel).contains(number)]
                    items_at(self.heads@, channel).contains(number) <==> numbers@.take(
                        i as int,
                    ).contains(number) && is_sink_of(
                        self@.messages,
                        self@.children,
                        channel,
                        number,
                    ),
            decreases numbers.len() - i,
        {
            let number = numbers[i];
            let ghost before = self.heads@;
            proof {
                lemma_take_next(numbers@, i as int);
                assert(numbers@.to_set().contains(number));
            }
            match self.messages.get(&number) {
                Some(message) => {
                    if !self.children.contains_key(&number) {
                        self.heads.insert(message.channel_id.0, number);
                    }
                },
                None => {},
            }
            proof {
                assert forall|channel: u128, other: u128|
                    #![trigger items_at(self.heads@, channel).contains(other)]
                    items_at(self.heads@, channel).contains(other) <==> numbers@.take(
                        i + 1,
                    ).contains(other) && is_sink_of(
                        self@.messages,
                        self@.children,
                        channel,
                        other,
                    ) by {
                    assert(items_at(before, channel).contains(other) <==> numbers@.take(
                        i as int,
                    ).contains(other) && is_sink_of(
                        self@.messages,
                        self@.children,
                        channel,
                        other,
                    ));
                }
            }
            i = i + 1;
        }
        proof {
            lemma_take_all(numbers@);
            let goal = rebuilt_heads(self@.messages, self@.children);
            self.heads.lemma_no_empty_set();
            assert forall|channel: u128| items_at(self@.heads, channel) == #[trigger] items_at(
                goal,
                channel,
            ) by {
                assert forall|number: u128|
                    items_at(self@.heads, channel).contains(number) <==> items_at(
                        goal,
                        channel,
                    ).contains(number) by {
                    assert(items_at(self.heads@, channel).contains(number) <==> numbers@.contains(
                        number,
                    ) && is_sink_of(self@.messages, self@.children, channel, number));
                    if is_sink_of(self@.messages, self@.children, channel, number) {
                        assert(numbers@.to_set().contains(number));
                    }
                }
                assert(items_at(self@.heads, channel) =~= items_at(goal, channel));
            }
            assert forall|channel: u128| #[trigger] goal.contains_key(channel) implies !goal[channel].is_empty() by {
                let number = choose|number: u128|
                    is_sink_of(self@.messages, self@.children, channel, number);
                assert(goal[channel].contains(number));
            }
            lemma_equal_items_equal_states(self@.heads, goal);
        }
    }

    /// Loads messages in bulk, as on recovery from storage, where they may
    /// come in any order and their parents may be lacking.
    ///
    /// The messages are stored in the order of their making, each linked as
    /// a child to those of its parents that the graph holds by then. Then the
    /// heads are rebuilt: in every channel they are the messages to which no
    /// child is linked. No parent is asked for, and the load never fails.
    pub fn load_messages(&mut self, messages: Vec<Message>) -> (result: Result<(), DagError>)
        ensures
            result is Ok,
            final(self)@ == loaded(old(self)@, views(messages@)),
            old(self).wf() ==> final(self).wf(),
    {
        let sorted = sort_by_creation(messages);
        let ghost ordered = views(sorted@);
        assert(stored_all(self@, ordered.take(0)) == self@);
        for message in walk: sorted.into_iter()
            invariant
                walk.seq() == sorted@,
                ordered == views(sorted@),
                self@ == stored_all(old(self)@, ordered.take(walk.index())),
        {
            proof {
                let longer = ordered.take(walk.index() + 1);
                assert(longer.drop_last() =~= ordered.take(walk.index()));
                assert(longer.last() == message@);
            }
            self.store_unchecked(message);
        }
        proof {
            lemma_take_all(ordered);
            if old(self).wf() {
                lemma_stored_all_keeps_keys(old(self)@, ordered);
            }
        }
        self.rebuild_heads();
        Ok(())
    }
}

/// `messages` in the order of their making; messages made at the same time
/// stay in the order in which they came.
pub fn sort_by_creation(messages: Vec<Message>) -> (sorted: Vec<Message>)
    ensures
        views(sorted@) == by_creation(views(messages@)),
{
    let ghost given = views(messages@);
    let mut sorted: Vec<Message> = Vec::new();
    assert(views(sorted@) =~= by_creation(given.take(0)));
    for message in walk: messages.into_iter()
        invariant
            walk.seq() == messages@,
            given == views(messages@),
            views(sorted@) == by_creation(given.take(walk.index())),
    {
        let ghost earlier = views(sorted@);
        let made = message.created_at;
        let mut at: usize = sorted.len();
        proof {
            lemma_take_all(earlier);
        }
        while at > 0 && sorted[at - 1].created_at > made
            invariant
                at <= sorted.len(),
                earlier == views(sorted@),
                place_by_time(earlier, made) == place_by_time(earlier.take(at as int), made),
            decreases at,
        {
            proof {
                assert(earlier.take(at as int).drop_last() =~= earlier.take(at - 1));
                assert(earlier.take(at as int).last() == sorted@[at - 1]@);
            }
            at = at - 1;
        }
        proof {
            if at > 0 {
                assert(earlier.take(at as int).last() == sorted@[at - 1]@);
            }
            assert(place_by_time(earlier, made) == at);
            let longer = given.take(walk.index() + 1);
            assert(longer.drop_last() =~= given.take(walk.index()));
            assert(longer.last() == message@);
        }
        sorted.insert(at, message);
        assert(views(sorted@) =~= earlier.insert(at as int, message@));
    }
    proof {
        lemma_take_all(given);
    }
    sorted
}

} // verus!
