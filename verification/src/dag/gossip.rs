//! Anti-entropy: which commands to give so that replicas fill their gaps.
//!
//! Peers tell each other which messages of a channel they hold. A peer that
//! learns of messages it lacks asks for them; a peer that is asked sends
//! what it holds.

use vstd::prelude::*;
use vstd::std_specs::hash::*;
use std::collections::HashSet;
use crate::collect::{lemma_take_all, lemma_take_next};
use crate::dag::{id_numbers, is_missing, MessageDAG};
use crate::ids::{ChannelId, MessageId};
use crate::message::{views, Message, MessageView};
use crate::network::{NetworkCommand, NetworkCommandView};
use crate::sorted::in_order;

verus! {

/// The identifiers of `ids` stand in strictly increasing order.
pub open spec fn ascending(ids: Seq<MessageId>) -> bool {
    forall|i: int, j: int| 0 <= i < j < ids.len() ==> ids[i].0 < ids[j].0
}

/// One of `waiting` has the identifier number `number`.
pub open spec fn is_waiting(waiting: Seq<MessageView>, number: u128) -> bool {
    exists|i: int| 0 <= i < waiting.len() && (#[trigger] waiting[i]).id.0 == number
}

/// One of `waiting` names `number` as a parent.
pub open spec fn awaited(waiting: Seq<MessageView>, number: u128) -> bool {
    exists|i: int|
        0 <= i < waiting.len() && id_numbers((#[trigger] waiting[i]).parent_hashes).contains(
            number,
        )
}

/// The message `number` is wanted: a message that is held, in the graph or
/// waiting for admission, names it as a parent, and it is not held itself.
pub open spec fn wanted(
    messages: Map<u128, MessageView>,
    waiting: Seq<MessageView>,
    number: u128,
) -> bool {
    &&& !messages.contains_key(number)
    &&& !is_waiting(waiting, number)
    &&& (is_missing(messages, number) || awaited(waiting, number))
}

/// `list` holds each identifier once, and `listed` holds their numbers.
pub open spec fn listing_of(list: Seq<MessageId>, listed: Set<u128>) -> bool {
    &&& list.no_duplicates()
    &&& forall|id: MessageId| #[trigger] list.contains(id) <==> listed.contains(id.0)
}

/// Puts `id` behind `list` unless it is listed already.
fn list_once(list: &mut Vec<MessageId>, listed: &mut HashSet<u128>, id: MessageId)
    requires
        listing_of(old(list)@, old(listed)@),
    ensures
        listing_of(final(list)@, final(listed)@),
        final(listed)@ == old(listed)@.insert(id.0),
        old(listed)@.contains(id.0) ==> final(list)@ == old(list)@,
        !old(listed)@.contains(id.0) ==> final(list)@ == old(list)@.push(id),
{
    broadcast use group_hash_axioms;
    if listed.contains(&id.0) {
        assert(listed@ =~= listed@.insert(id.0));
        return ;
    }
    let ghost before = list@;
    let ghost known = listed@;
    assert(!before.contains(id));
    listed.insert(id.0);
    list.push(id);
    proof {
        assert forall|other: MessageId| #[trigger]
            list@.contains(other) <==> listed@.contains(other.0) by {
            assert(before.contains(other) <==> known.contains(other.0));
            if list@.contains(other) {
                let k = choose|k: int| 0 <= k < list@.len() && list@[k] == other;
                if k < before.len() {
                    assert(before[k] == other);
                    assert(before.contains(other));
                }
            }
            if before.contains(other) {
                let k = choose|k: int| 0 <= k < before.len() && before[k] == other;
                assert(list@[k] == other);
            }
            if other.0 == id.0 {
                assert(other == id);
                assert(list@[before.len() as int] == other);
            }
        }
        assert forall|a: int, b: int| 0 <= a < b < list@.len() implies list@[a] != list@[b] by {
            if b == before.len() {
                assert(before.contains(before[a]));
            } else {
                assert(before[a] != before[b]);
            }
        }
    }
}

/// The numbers of the identifiers of `waiting`.
fn waiting_numbers(waiting: &Vec<Message>) -> (numbers: HashSet<u128>)
    ensures
        forall|number: u128| numbers@.contains(number) <==> is_waiting(views(waiting@), number),
{
    broadcast use group_hash_axioms;
    let mut numbers: HashSet<u128> = HashSet::new();
    let mut i: usize = 0;
    while i < waiting.len()
        invariant
            i <= waiting.len(),
            forall|number: u128|
                numbers@.contains(number) <==> exists|k: int|
                    0 <= k < i && (#[trigger] views(waiting@)[k]).id.0 == number,
        decreases waiting.len() - i,
    {
        let ghost before = numbers@;
        numbers.insert(waiting[i].id.0);
        proof {
            assert forall|number: u128|
                numbers@.contains(number) <==> exists|k: int|
                    0 <= k < i + 1 && (#[trigger] views(waiting@)[k]).id.0 == number by {
                if numbers@.contains(number) {
                    if number == waiting@[i as int].id.0 {
                        assert(views(waiting@)[i as int].id.0 == number);
                    } else {
                        assert(before.contains(number));
                        let k = choose|k: int|
                            0 <= k < i && (#[trigger] views(waiting@)[k]).id.0 == number;
                        assert(views(waiting@)[k].id.0 == number);
                    }
                }
                if exists|k: int|
                    0 <= k < i + 1 && (#[trigger] views(waiting@)[k]).id.0 == number {
                    let k = choose|k: int|
                        0 <= k < i + 1 && (#[trigger] views(waiting@)[k]).id.0 == number;
                    if k < i {
                        assert(before.contains(number));
                    }
                }
            }
        }
        i = i + 1;
    }
    numbers
}

/// Decides what to send for the sake of anti-entropy.
#[derive(Debug, Clone, Copy)]
pub struct GossipManager {}

impl GossipManager {
    pub fn new() -> (manager: Self) {
        GossipManager {  }
    }

    /// The command that asks the peers which messages of a channel they
    /// hold.
    pub fn request_inventory(&self, channel_id: ChannelId) -> (command: NetworkCommand)
        ensures
            command@ == (NetworkCommandView::RequestInventory { channel_id }),
    {
        NetworkCommand::RequestInventory { channel_id }
    }

    /// The command that tells the peers which messages of a channel are
    /// held here: `held`, each identifier once, in increasing order, so that
    /// equal inventories make equal frames.
    pub fn send_inventory(&self, channel_id: ChannelId, held: &Vec<MessageId>) -> (command:
        NetworkCommand)
        ensures
            command@ matches NetworkCommandView::BroadcastInventory { channel_id: channel, message_ids }
                && channel == channel_id && ascending(message_ids) && (forall|id: MessageId|
                message_ids.contains(id) <==> held@.contains(id)),
    {
        let numbers = MessageId::numbers_of(held);
        let sorted = in_order(&numbers);
        let message_ids = MessageId::from_numbers(&sorted);
        proof {
            assert forall|a: int, b: int| 0 <= a < b < message_ids@.len() implies message_ids@[a].0
                < message_ids@[b].0 by {
                assert(message_ids@[a].0 == sorted@[a] && message_ids@[b].0 == sorted@[b]);
            }
            assert forall|id: MessageId| message_ids@.contains(id) <==> held@.contains(id) by {
                assert(message_ids@.contains(id) <==> sorted@.contains(id.0));
                assert(sorted@.contains(id.0) <==> numbers@.contains(id.0));
                assert(numbers@.contains(id.0) <==> held@.contains(id));
            }
        }
        NetworkCommand::BroadcastInventory { channel_id, message_ids }
    }

    /// What to do on an inventory from a peer: ask for the messages that the
    /// peer holds and that are not held here, neither in the graph nor
    /// waiting for admission, each once; nothing where none is lacking.
    pub fn handle_inventory(
        &self,
        channel_id: ChannelId,
        their_message_ids: &Vec<MessageId>,
        dag: &MessageDAG,
        waiting: &Vec<Message>,
    ) -> (command: Option<NetworkCommand>)
        ensures
            match command {
                Some(command) => command@ matches NetworkCommandView::RequestMessages {
                    channel_id: channel,
                    message_ids,
                } && channel == channel_id && message_ids.len() > 0 && message_ids.no_duplicates()
                    && (forall|id: MessageId|
                    message_ids.contains(id) <==> their_message_ids@.contains(id)
                        && !dag@.messages.contains_key(id.0) && !is_waiting(
                        views(waiting@),
                        id.0,
                    )),
                None => forall|id: MessageId|
                    their_message_ids@.contains(id) ==> dag@.messages.contains_key(id.0)
                        || is_waiting(views(waiting@), id.0),
            },
    {
        broadcast use group_hash_axioms;
        let held = waiting_numbers(waiting);
        let mut missing: Vec<MessageId> = Vec::new();
        let mut listed: HashSet<u128> = HashSet::new();
        let mut i: usize = 0;
        while i < their_message_ids.len()
            invariant
                i <= their_message_ids.len(),
                listing_of(missing@, listed@),
                forall|number: u128|
                    held@.contains(number) <==> is_waiting(views(waiting@), number),
                forall|id: MessageId|
                    listed@.contains(id.0) <==> their_message_ids@.take(i as int).contains(id)
                        && !dag@.messages.contains_key(id.0) && !held@.contains(id.0),
            decreases their_message_ids.len() - i,
        {
            let id = their_message_ids[i];
            let ghost before = listed@;
            proof {
                lemma_take_next(their_message_ids@, i as int);
            }
            if !dag.has_message(&id) && !held.contains(&id.0) {
                list_once(&mut missing, &mut listed, id);
            }
            proof {
                assert forall|other: MessageId|
                    listed@.contains(other.0) <==> their_message_ids@.take(i + 1).contains(other)
                        && !dag@.messages.contains_key(other.0) && !held@.contains(other.0) by {
                    assert(before.contains(other.0) <==> their_message_ids@.take(
                        i as int,
                    ).contains(other) && !dag@.messages.contains_key(other.0) && !held@.contains(
                        other.0,
                    ));
                    assert(their_message_ids@.take(i + 1).contains(other)
                        <==> their_message_ids@.take(i as int).contains(other) || other == id);
                    if other.0 == id.0 {
                        assert(other == id);
                    }
                }
            }
            i = i + 1;
        }
        proof {
            lemma_take_all(their_message_ids@);
            assert forall|id: MessageId|
                missing@.contains(id) <==> their_message_ids@.contains(id)
                    && !dag@.messages.contains_key(id.0) && !is_waiting(
                    views(waiting@),
                    id.0,
                ) by {
                assert(missing@.contains(id) <==> listed@.contains(id.0));
                assert(held@.contains(id.0) <==> is_waiting(views(waiting@), id.0));
            }
        }
        if missing.len() > 0 {
            Some(NetworkCommand::RequestMessages { channel_id, message_ids: missing })
        } else {
            proof {
                assert forall|id: MessageId|
                    their_message_ids@.contains(id) implies dag@.messages.contains_key(id.0)
                    || is_waiting(views(waiting@), id.0) by {
                    if !dag@.messages.contains_key(id.0) && !is_waiting(views(waiting@), id.0) {
                        assert(missing@.contains(id));
                    }
                }
            }
            None
        }
    }

    /// What to do once the messages that a peer asked for have been looked
    /// up: send those that were found; nothing where none was.
    pub fn handle_message_request(&self, channel_id: ChannelId, found: Vec<Message>) -> (command:
        Option<NetworkCommand>)
        ensures
            match command {
                Some(command) => found@.len() > 0 && command@
                    == (NetworkCommandView::RespondWithMessages {
                    channel_id,
                    messages: views(found@),
                }),
                None => found@.len() == 0,
            },
    {
        if found.len() > 0 {
            Some(NetworkCommand::RespondWithMessages { channel_id, messages: found })
        } else {
            None
        }
    }

    /// What to do about the gaps: ask for every message that a message held
    /// here, in the graph or waiting for admission, names as a parent and
    /// that is not held itself, each once; nothing where there is no gap.
    pub fn detect_and_request_missing(
        &self,
        channel_id: ChannelId,
        dag: &MessageDAG,
        waiting: &Vec<Message>,
    ) -> (command: Option<NetworkCommand>)
        ensures
            match command {
                Some(command) => command@ matches NetworkCommandView::RequestMessages {
                    channel_id: channel,
                    message_ids,
                } && channel == channel_id && message_ids.len() > 0 && message_ids.no_duplicates()
                    && (forall|id: MessageId|
                    message_ids.contains(id) <==> wanted(dag@.messages, views(waiting@), id.0)),
                None => forall|number: u128| !wanted(dag@.messages, views(waiting@), number),
            },
    {
        broadcast use group_hash_axioms;
        let held = waiting_numbers(waiting);
        let gaps = dag.find_missing_messages();
        let mut missing: Vec<MessageId> = Vec::new();
        let mut listed: HashSet<u128> = HashSet::new();
        let mut i: usize = 0;
        while i < gaps.len()
            invariant
                i <= gaps.len(),
                listing_of(missing@, listed@),
                forall|id: MessageId|
                    listed@.contains(id.0) <==> gaps@.take(i as int).contains(id) && !held@.contains(
                        id.0,
                    ),
            decreases gaps.len() - i,
        {
            let id = gaps[i];
            let ghost before = listed@;
            proof {
                lemma_take_next(gaps@, i as int);
            }
            if !held.contains(&id.0) {
                list_once(&mut missing, &mut listed, id);
            }
            proof {
                assert forall|other: MessageId|
                    listed@.contains(other.0) <==> gaps@.take(i + 1).contains(other)
                        && !held@.contains(other.0) by {
                    assert(before.contains(other.0) <==> gaps@.take(i as int).contains(other)
                        && !held@.contains(other.0));
                    assert(gaps@.take(i + 1).contains(other) <==> gaps@.take(i as int).contains(
                        other,
                    ) || other == id);
                    if other.0 == id.0 {
                        assert(other == id);
                    }
                }
            }
            i = i + 1;
        }
        proof {
            lemma_take_all(gaps@);
        }
        let ghost messages = dag@.messages;
        let ghost queue = views(waiting@);
        proof {
            assert forall|number: u128|
                #![trigger listed@.contains(number)]
                listed@.contains(number) <==> (!messages.contains_key(number) && !held@.contains(
                    number,
                ) && (is_missing(messages, number) || awaited(queue.take(0), number))) by {
                let id = MessageId(number);
                assert(listed@.contains(id.0) <==> gaps@.contains(id) && !held@.contains(id.0));
                assert(gaps@.contains(id) <==> is_missing(messages, id.0));
                assert(!awaited(queue.take(0), number));
            }
        }
        let mut k: usize = 0;
        while k < waiting.len()
            invariant
                k <= waiting.len(),
                messages == dag@.messages,
                queue == views(waiting@),
                listing_of(missing@, listed@),
                forall|number: u128| held@.contains(number) <==> is_waiting(queue, number),
                forall|id: MessageId| gaps@.contains(id) <==> is_missing(messages, id.0),
                forall|number: u128|
                    #![trigger listed@.contains(number)]
                    listed@.contains(number) <==> (!messages.contains_key(number)
                        && !held@.contains(number) && (is_missing(messages, number) || awaited(
                        queue.take(k as int),
                        number,
                    ))),
            decreases waiting.len() - k,
        {
            let message = &waiting[k];
            let ghost parents = message.parent_hashes@;
            let ghost start = listed@;
            proof {
                assert forall|number: u128| #[trigger]
                    start.contains(number) <==> !messages.contains_key(number) && !held@.contains(
                        number,
                    ) && (is_missing(messages, number) || awaited(queue.take(k as int), number)) by {}
                assert(parents.take(0) =~= Seq::<MessageId>::empty());
            }
            let mut j: usize = 0;
            while j < message.parent_hashes.len()
                invariant
                    j <= message.parent_hashes.len(),
                    k < waiting.len(),
                    messages == dag@.messages,
                    parents == message.parent_hashes@,
                    listing_of(missing@, listed@),
                    forall|number: u128|
                        #![trigger listed@.contains(number)]
                        listed@.contains(number) <==> (start.contains(number) || (id_numbers(
                            parents.take(j as int),
                        ).contains(number) && !messages.contains_key(number) && !held@.contains(
                            number,
                        ))),
                decreases message.parent_hashes.len() - j,
            {
                let parent = message.parent_hashes[j];
                let ghost before = listed@;
                let fresh = !dag.has_message(&parent) && !held.contains(&parent.0);
                proof {
                    lemma_take_next(parents, j as int);
                    assert forall|number: u128| #[trigger]
                        before.contains(number) <==> start.contains(number) || (id_numbers(
                            parents.take(j as int),
                        ).contains(number) && !messages.contains_key(number) && !held@.contains(
                            number,
                        )) by {}
                }
                if fresh {
                    list_once(&mut missing, &mut listed, parent);
                }
                proof {
                    assert(listed@ == if fresh {
                        before.insert(parent.0)
                    } else {
                        before
                    });
                    assert forall|number: u128|
                        listed@.contains(number) <==> start.contains(number) || (id_numbers(
                            parents.take(j + 1),
                        ).contains(number) && !messages.contains_key(number) && !held@.contains(
                            number,
                        )) by {
                        assert(before.contains(number) <==> start.contains(number) || (id_numbers(
                            parents.take(j as int),
                        ).contains(number) && !messages.contains_key(number) && !held@.contains(
                            number,
                        )));
                        let id = MessageId(number);
                        assert(parents.take(j + 1).contains(id) <==> parents.take(
                            j as int,
                        ).contains(id) || id == parent);
                        assert(id == parent <==> number == parent.0);
                        assert(id_numbers(parents.take(j + 1)).contains(number)
                            == parents.take(j + 1).contains(id));
                        assert(id_numbers(parents.take(j as int)).contains(number)
                            == parents.take(j as int).contains(id));
                    }
                }
                j = j + 1;
            }
            proof {
                lemma_take_all(parents);
                lemma_take_next(queue, k as int);
                assert(queue[k as int].parent_hashes == parents);
                let shorter = queue.take(k as int);
                let longer = queue.take(k + 1);
                assert forall|number: u128|
                    awaited(longer, number) <==> awaited(shorter, number) || id_numbers(
                        parents,
                    ).contains(number) by {
                    if awaited(longer, number) {
                        let i = choose|i: int|
                            0 <= i < longer.len() && id_numbers(
                                (#[trigger] longer[i]).parent_hashes,
                            ).contains(number);
                        if i < k {
                            assert(id_numbers(shorter[i].parent_hashes).contains(number));
                        }
                    }
                    if awaited(shorter, number) {
                        let i = choose|i: int|
                            0 <= i < shorter.len() && id_numbers(
                                (#[trigger] shorter[i]).parent_hashes,
                            ).contains(number);
                        assert(id_numbers(longer[i].parent_hashes).contains(number));
                    }
                    if id_numbers(parents).contains(number) {
                        assert(id_numbers(longer[k as int].parent_hashes).contains(number));
                    }
                }
                assert forall|number: u128|
                    listed@.contains(number) <==> !messages.contains_key(number)
                        && !held@.contains(number) && (is_missing(messages, number) || awaited(
                        longer,
                        number,
                    )) by {
                    assert(start.contains(number) <==> !messages.contains_key(number)
                        && !held@.contains(number) && (is_missing(messages, number) || awaited(
                        shorter,
                        number,
                    )));
                    assert(listed@.contains(number) <==> start.contains(number) || (id_numbers(
                        parents,
                    ).contains(number) && !messages.contains_key(number) && !held@.contains(
                        number,
                    )));
                    assert(awaited(longer, number) <==> awaited(shorter, number) || id_numbers(
                        parents,
                    ).contains(number));
                }
            }
            k = k + 1;
        }
        proof {
            lemma_take_all(queue);
            assert forall|id: MessageId|
                missing@.contains(id) <==> wanted(messages, queue, id.0) by {
                assert(missing@.contains(id) <==> listed@.contains(id.0));
                assert(held@.contains(id.0) <==> is_waiting(queue, id.0));
                assert(listed@.contains(id.0) <==> !messages.contains_key(id.0) && !held@.contains(
                    id.0,
                ) && (is_missing(messages, id.0) || awaited(queue, id.0)));
            }
        }
        if missing.len() > 0 {
            Some(NetworkCommand::RequestMessages { channel_id, message_ids: missing })
        } else {
            proof {
                assert forall|number: u128| !wanted(messages, queue, number) by {
                    if wanted(messages, queue, number) {
                        assert(missing@.contains(MessageId(number)));
                    }
                }
            }
            None
        }
    }
}

} // verus!
