//! The causal order in which the messages of a channel are shown.
//!
//! The order is that of Kahn's algorithm on the graph of the channel's
//! messages: a message is placed once all its parents within the channel are
//! placed. Messages that become free together are placed in the order of
//! their Lamport timestamps, then of their identifiers; those freed earlier
//! go before those freed later.

use vstd::prelude::*;
use crate::ids::MessageId;
use crate::message::MessageView;
use crate::sorted::{increasing, key_before, lemma_increasing_is_unique};

verus! {

/// `messages` holds `number`, and it is a message of `channel`.
pub open spec fn in_channel(messages: Map<u128, MessageView>, channel: u128, number: u128) -> bool {
    messages.contains_key(number) && messages[number].channel_id.0 == channel
}

/// The key by which the message `number` is ordered among those that become
/// free together: its Lamport timestamp, then the number of its identifier.
pub open spec fn order_key(messages: Map<u128, MessageView>, number: u128) -> (u64, u128) {
    (messages[number].lamport_timestamp, number)
}

/// `keys` holds the key of every message of `channel`, and nothing else, in
/// increasing order.
pub open spec fn lists_channel(
    messages: Map<u128, MessageView>,
    channel: u128,
    keys: Seq<(u64, u128)>,
) -> bool {
    &&& increasing(keys)
    &&& forall|key: (u64, u128)| #[trigger]
        keys.contains(key) <==> in_channel(messages, channel, key.1) && key == order_key(
            messages,
            key.1,
        )
}

/// The keys of the messages of `channel`, in increasing order.
pub open spec fn channel_listing(messages: Map<u128, MessageView>, channel: u128) -> Seq<
    (u64, u128),
> {
    choose|keys: Seq<(u64, u128)>| lists_channel(messages, channel, keys)
}

/// The message `child` names `parent` as a parent.
pub open spec fn names_parent(messages: Map<u128, MessageView>, child: u128, parent: u128) -> bool {
    messages[child].parent_hashes.contains(MessageId(parent))
}

/// Every parent of the message `number` that is a message of `channel` is in
/// `done`.
pub open spec fn ready(
    messages: Map<u128, MessageView>,
    channel: u128,
    done: Set<u128>,
    number: u128,
) -> bool {
    forall|i: int|
        0 <= i < messages[number].parent_hashes.len() && in_channel(
            messages,
            channel,
            (#[trigger] messages[number].parent_hashes[i]).0,
        ) ==> done.contains(messages[number].parent_hashes[i].0)
}

/// Those of `keys` whose message names `parent` as a parent, in the order
/// of `keys`.
pub open spec fn children_among(
    messages: Map<u128, MessageView>,
    parent: u128,
    keys: Seq<(u64, u128)>,
) -> Seq<(u64, u128)>
    decreases keys.len(),
{
    if keys.len() == 0 {
        Seq::empty()
    } else {
        let earlier = children_among(messages, parent, keys.drop_last());
        if names_parent(messages, keys.last().1, parent) {
            earlier.push(keys.last())
        } else {
            earlier
        }
    }
}

/// Those of `keys` whose message is free once `done` is placed, in the
/// order of `keys`.
pub open spec fn free_among(
    messages: Map<u128, MessageView>,
    channel: u128,
    done: Set<u128>,
    keys: Seq<(u64, u128)>,
) -> Seq<(u64, u128)>
    decreases keys.len(),
{
    if keys.len() == 0 {
        Seq::empty()
    } else {
        let earlier = free_among(messages, channel, done, keys.drop_last());
        if ready(messages, channel, done, keys.last().1) {
            earlier.push(keys.last())
        } else {
            earlier
        }
    }
}

/// The children that the message `parent` frees when it is placed and
/// `done` is placed with it: those of its children in the channel all of
/// whose parents in the channel are placed, in increasing order.
pub open spec fn freed_by(
    messages: Map<u128, MessageView>,
    channel: u128,
    done: Set<u128>,
    parent: u128,
) -> Seq<(u64, u128)> {
    free_among(
        messages,
        channel,
        done,
        children_among(messages, parent, channel_listing(messages, channel)),
    )
}

/// The messages of the channel that have no parent in the channel, in
/// increasing order.
pub open spec fn roots(messages: Map<u128, MessageView>, channel: u128) -> Seq<(u64, u128)> {
    free_among(messages, channel, Set::empty(), channel_listing(messages, channel))
}

/// What Kahn's algorithm places from here on, in at most `steps` steps:
/// the first of `waiting`, then what follows once the children that this one
/// has freed have queued up behind the others.
pub open spec fn kahn(
    messages: Map<u128, MessageView>,
    channel: u128,
    waiting: Seq<(u64, u128)>,
    done: Set<u128>,
    steps: nat,
) -> Seq<u128>
    decreases steps,
{
    if steps == 0 || waiting.len() == 0 {
        Seq::empty()
    } else {
        let first = waiting[0].1;
        let done_next = done.insert(first);
        let freed = freed_by(messages, channel, done_next, first);
        seq![first] + kahn(
            messages,
            channel,
            waiting.drop_first() + freed,
            done_next,
            (steps - 1) as nat,
        )
    }
}

/// The causal order of the messages of `channel`, as the numbers of their
/// identifiers: Kahn's algorithm, started with the messages that have no
/// parent in the channel, run for as many steps as the channel has messages.
pub open spec fn causal_order(messages: Map<u128, MessageView>, channel: u128) -> Seq<u128> {
    kahn(
        messages,
        channel,
        roots(messages, channel),
        Set::empty(),
        channel_listing(messages, channel).len(),
    )
}

/// No message of `placed` stands before, or is, one of its own parents.
pub open spec fn parents_first(messages: Map<u128, MessageView>, placed: Seq<u128>) -> bool {
    forall|i: int, j: int|
        0 <= i < placed.len() && 0 <= j < placed.len() && names_parent(
            messages,
            #[trigger] placed[i],
            #[trigger] placed[j],
        ) ==> j < i
}

/// A state of Kahn's algorithm that it can reach: `placed` are the messages
/// placed so far, `done` is their set, `waiting` are those that are free and
/// not placed yet.
pub open spec fn sound(
    messages: Map<u128, MessageView>,
    channel: u128,
    listing: Seq<(u64, u128)>,
    placed: Seq<u128>,
    waiting: Seq<(u64, u128)>,
    done: Set<u128>,
) -> bool {
    &&& placed.no_duplicates()
    &&& done == placed.to_set()
    &&& forall|i: int|
        0 <= i < placed.len() ==> listing.contains(order_key(messages, #[trigger] placed[i]))
    &&& forall|i: int|
        0 <= i < placed.len() ==> ready(messages, channel, done, #[trigger] placed[i])
    &&& waiting.no_duplicates()
    &&& forall|i: int|
        0 <= i < waiting.len() ==> listing.contains(#[trigger] waiting[i]) && !done.contains(
            waiting[i].1,
        ) && ready(messages, channel, done, waiting[i].1)
    &&& parents_first(messages, placed)
    &&& forall|number: u128|
        in_channel(messages, channel, number) && #[trigger] ready(messages, channel, done, number)
            ==> done.contains(number) || waiting.contains(order_key(messages, number))
}

/// A channel has one listing only.
pub proof fn lemma_listing_is_unique(
    messages: Map<u128, MessageView>,
    channel: u128,
    keys: Seq<(u64, u128)>,
)
    requires
        lists_channel(messages, channel, keys),
    ensures
        channel_listing(messages, channel) == keys,
{
    let chosen = channel_listing(messages, channel);
    assert(lists_channel(messages, channel, chosen));
    assert forall|key: (u64, u128)| chosen.to_set().contains(key) <==> keys.to_set().contains(
        key,
    ) by {
        assert(chosen.contains(key) <==> keys.contains(key));
    }
    assert(chosen.to_set() =~= keys.to_set());
    lemma_increasing_is_unique(chosen, keys);
}

/// One key more: what a selection of the first `i + 1` keys holds beyond
/// that of the first `i`.
pub proof fn lemma_selection_next(
    messages: Map<u128, MessageView>,
    channel: u128,
    done: Set<u128>,
    parent: u128,
    keys: Seq<(u64, u128)>,
    i: int,
)
    requires
        0 <= i < keys.len(),
    ensures
        free_among(messages, channel, done, keys.take(i + 1)) == if ready(
            messages,
            channel,
            done,
            keys[i].1,
        ) {
            free_among(messages, channel, done, keys.take(i)).push(keys[i])
        } else {
            free_among(messages, channel, done, keys.take(i))
        },
        children_among(messages, parent, keys.take(i + 1)) == if names_parent(
            messages,
            keys[i].1,
            parent,
        ) {
            children_among(messages, parent, keys.take(i)).push(keys[i])
        } else {
            children_among(messages, parent, keys.take(i))
        },
{
    let longer = keys.take(i + 1);
    assert(longer.drop_last() =~= keys.take(i));
    assert(longer.last() == keys[i]);
}

/// What a sequence holds that leaves out some of the keys of another and
/// keeps the rest in their order: `kept` holds the keys of `keys` that
/// `keep` holds true of.
pub open spec fn selects(
    keys: Seq<(u64, u128)>,
    kept: Seq<(u64, u128)>,
    keep: spec_fn((u64, u128)) -> bool,
) -> bool {
    &&& forall|key: (u64, u128)| #[trigger] kept.contains(key) <==> keys.contains(key) && keep(key)
    &&& increasing(keys) ==> increasing(kept)
}

/// One step of a selection keeps it a selection.
proof fn lemma_selection_step(
    keys: Seq<(u64, u128)>,
    earlier: Seq<(u64, u128)>,
    keep: spec_fn((u64, u128)) -> bool,
)
    requires
        keys.len() > 0,
        selects(keys.drop_last(), earlier, keep),
    ensures
        selects(
            keys,
            if keep(keys.last()) {
                earlier.push(keys.last())
            } else {
                earlier
            },
            keep,
        ),
{
    let shorter = keys.drop_last();
    let last = keys.last();
    let whole = if keep(last) {
        earlier.push(last)
    } else {
        earlier
    };
    assert forall|key: (u64, u128)| #[trigger] whole.contains(key) <==> keys.contains(key) && keep(
        key,
    ) by {
        if whole.contains(key) {
            let i = choose|i: int| 0 <= i < whole.len() && whole[i] == key;
            if i < earlier.len() {
                assert(earlier[i] == key);
                assert(earlier.contains(key));
                let j = choose|j: int| 0 <= j < shorter.len() && shorter[j] == key;
                assert(keys[j] == key);
            } else {
                assert(key == last);
                assert(keys[keys.len() - 1] == key);
            }
        }
        if keys.contains(key) && keep(key) {
            let j = choose|j: int| 0 <= j < keys.len() && keys[j] == key;
            if j < shorter.len() {
                assert(shorter[j] == key);
                assert(shorter.contains(key));
                assert(earlier.contains(key));
                let i = choose|i: int| 0 <= i < earlier.len() && earlier[i] == key;
                assert(whole[i] == key);
            } else {
                assert(key == last);
                assert(whole[whole.len() - 1] == key);
            }
        }
    }
    if increasing(keys) {
        assert forall|i: int, j: int| 0 <= i < j < shorter.len() implies key_before(
            shorter[i],
            shorter[j],
        ) by {
            assert(key_before(keys[i], keys[j]));
        }
        assert forall|i: int, j: int| 0 <= i < j < whole.len() implies key_before(
            whole[i],
            whole[j],
        ) by {
            if j < earlier.len() {
                assert(whole[i] == earlier[i] && whole[j] == earlier[j]);
            } else {
                assert(whole[j] == last);
                assert(whole[i] == earlier[i]);
                assert(earlier.contains(earlier[i]));
                assert(shorter.contains(earlier[i]));
                let p = choose|p: int| 0 <= p < shorter.len() && shorter[p] == earlier[i];
                assert(key_before(keys[p], keys[keys.len() - 1]));
            }
        }
    }
}

/// The children among some keys are those of the keys whose message names
/// the parent, in the order of the keys.
pub proof fn lemma_children_among(
    messages: Map<u128, MessageView>,
    parent: u128,
    keys: Seq<(u64, u128)>,
)
    ensures
        selects(
            keys,
            children_among(messages, parent, keys),
            |key: (u64, u128)| names_parent(messages, key.1, parent),
        ),
    decreases keys.len(),
{
    let keep = |key: (u64, u128)| names_parent(messages, key.1, parent);
    if keys.len() > 0 {
        lemma_children_among(messages, parent, keys.drop_last());
        lemma_selection_step(keys, children_among(messages, parent, keys.drop_last()), keep);
    }
}

/// The free among some keys are those of the keys whose message is free,
/// in the order of the keys.
pub proof fn lemma_free_among(
    messages: Map<u128, MessageView>,
    channel: u128,
    done: Set<u128>,
    keys: Seq<(u64, u128)>,
)
    ensures
        selects(
            keys,
            free_among(messages, channel, done, keys),
            |key: (u64, u128)| ready(messages, channel, done, key.1),
        ),
    decreases keys.len(),
{
    let keep = |key: (u64, u128)| ready(messages, channel, done, key.1);
    if keys.len() > 0 {
        lemma_free_among(messages, channel, done, keys.drop_last());
        lemma_selection_step(keys, free_among(messages, channel, done, keys.drop_last()), keep);
    }
}

/// The children that a message frees are the messages of the channel that
/// name it as a parent and are free, in increasing order.
pub proof fn lemma_freed_by(
    messages: Map<u128, MessageView>,
    channel: u128,
    listing: Seq<(u64, u128)>,
    done: Set<u128>,
    parent: u128,
)
    requires
        lists_channel(messages, channel, listing),
    ensures
        forall|key: (u64, u128)| #[trigger]
            freed_by(messages, channel, done, parent).contains(key) <==> listing.contains(key)
                && names_parent(messages, key.1, parent) && ready(messages, channel, done, key.1),
        increasing(freed_by(messages, channel, done, parent)),
{
    lemma_listing_is_unique(messages, channel, listing);
    let children = children_among(messages, parent, listing);
    lemma_children_among(messages, parent, listing);
    lemma_free_among(messages, channel, done, children);
    let freed = freed_by(messages, channel, done, parent);
    assert forall|key: (u64, u128)| #[trigger]
        freed.contains(key) <==> listing.contains(key) && names_parent(messages, key.1, parent)
            && ready(messages, channel, done, key.1) by {
        assert(freed.contains(key) <==> children.contains(key) && ready(
            messages,
            channel,
            done,
            key.1,
        ));
        assert(children.contains(key) <==> listing.contains(key) && names_parent(
            messages,
            key.1,
            parent,
        ));
    }
}

/// Messages without duplicates, each with its key in the listing, are no
/// more than the listing has keys.
pub proof fn lemma_placed_fit(
    messages: Map<u128, MessageView>,
    listing: Seq<(u64, u128)>,
    placed: Seq<u128>,
)
    requires
        placed.no_duplicates(),
        forall|i: int|
            0 <= i < placed.len() ==> listing.contains(order_key(messages, #[trigger] placed[i])),
    ensures
        placed.len() <= listing.len(),
{
    let keys = Seq::new(placed.len(), |i: int| order_key(messages, placed[i]));
    assert forall|i: int, j: int| 0 <= i < j < keys.len() implies keys[i] != keys[j] by {
        assert(placed[i] != placed[j]);
    }
    keys.unique_seq_to_set();
    listing.lemma_cardinality_of_set();
    assert forall|key: (u64, u128)| keys.to_set().contains(key) implies listing.to_set().contains(
        key,
    ) by {
        let i = choose|i: int| 0 <= i < keys.len() && keys[i] == key;
        assert(listing.contains(order_key(messages, placed[i])));
    }
    vstd::set_lib::lemma_len_subset(keys.to_set(), listing.to_set());
}

/// The start of Kahn's algorithm is a state it can reach.
pub proof fn lemma_start_is_sound(
    messages: Map<u128, MessageView>,
    channel: u128,
    listing: Seq<(u64, u128)>,
)
    requires
        lists_channel(messages, channel, listing),
    ensures
        sound(
            messages,
            channel,
            listing,
            Seq::empty(),
            free_among(messages, channel, Set::empty(), listing),
            Set::empty(),
        ),
{
    let roots = free_among(messages, channel, Set::empty(), listing);
    lemma_free_among(messages, channel, Set::empty(), listing);
    assert(Seq::<u128>::empty().to_set() =~= Set::<u128>::empty());
    assert forall|i: int| 0 <= i < roots.len() implies listing.contains(#[trigger] roots[i])
        && !Set::<u128>::empty().contains(roots[i].1) && ready(
        messages,
        channel,
        Set::empty(),
        roots[i].1,
    ) by {
        assert(roots.contains(roots[i]));
    }
    lemma_increasing_has_no_duplicates(roots);
    assert forall|number: u128|
        in_channel(messages, channel, number) && #[trigger] ready(
            messages,
            channel,
            Set::empty(),
            number,
        ) implies roots.contains(order_key(messages, number)) by {
        assert(listing.contains(order_key(messages, number)));
        assert(ready(messages, channel, Set::empty(), number));
    }
}

/// Keys in increasing order hold no key twice.
pub proof fn lemma_increasing_has_no_duplicates(keys: Seq<(u64, u128)>)
    requires
        increasing(keys),
    ensures
        keys.no_duplicates(),
{
    assert forall|i: int, j: int| 0 <= i < keys.len() && 0 <= j < keys.len() && i != j implies keys[i]
        != keys[j] by {
        if i < j {
            assert(key_before(keys[i], keys[j]));
        } else {
            assert(key_before(keys[j], keys[i]));
        }
    }
}

/// One step of Kahn's algorithm leads from a state it can reach to another:
/// the first of those waiting is placed, behind all its parents, and the
/// children it frees queue up.
pub proof fn lemma_step_is_sound(
    messages: Map<u128, MessageView>,
    channel: u128,
    listing: Seq<(u64, u128)>,
    placed: Seq<u128>,
    waiting: Seq<(u64, u128)>,
    done: Set<u128>,
)
    requires
        lists_channel(messages, channel, listing),
        sound(messages, channel, listing, placed, waiting, done),
        waiting.len() > 0,
    ensures
        placed.len() < listing.len(),
        sound(
            messages,
            channel,
            listing,
            placed.push(waiting[0].1),
            waiting.drop_first() + freed_by(
                messages,
                channel,
                done.insert(waiting[0].1),
                waiting[0].1,
            ),
            done.insert(waiting[0].1),
        ),
{
    let first = waiting[0];
    let number = first.1;
    let done_next = done.insert(number);
    let freed = freed_by(messages, channel, done_next, number);
    let placed_next = placed.push(number);
    let others = waiting.drop_first();
    let waiting_next = others + freed;
    lemma_freed_by(messages, channel, listing, done_next, number);
    lemma_increasing_has_no_duplicates(freed);

    assert(listing.contains(first));
    assert(in_channel(messages, channel, number) && first == order_key(messages, number));
    assert(!done.contains(number));
    assert(ready(messages, channel, done, number));

    // The message placed is new among those placed.
    assert forall|i: int| 0 <= i < placed.len() implies placed[i] != number by {
        assert(placed.to_set().contains(placed[i]));
    }
    assert(placed_next.no_duplicates()) by {
        assert forall|i: int, j: int|
            0 <= i < placed_next.len() && 0 <= j < placed_next.len() && i != j implies placed_next[i]
            != placed_next[j] by {
            if i < placed.len() && j < placed.len() {
                assert(placed[i] != placed[j]);
            }
        }
    }
    assert(done_next =~= placed_next.to_set()) by {
        assert forall|d: u128| done_next.contains(d) <==> placed_next.to_set().contains(d) by {
            if done_next.contains(d) {
                if d == number {
                    assert(placed_next[placed.len() as int] == d);
                } else {
                    assert(placed.to_set().contains(d));
                    let i = choose|i: int| 0 <= i < placed.len() && placed[i] == d;
                    assert(placed_next[i] == d);
                }
            }
            if placed_next.contains(d) {
                let i = choose|i: int| 0 <= i < placed_next.len() && placed_next[i] == d;
                if i < placed.len() {
                    assert(placed[i] == d);
                    assert(placed.to_set().contains(d));
                }
            }
        }
    }
    assert forall|i: int| 0 <= i < placed_next.len() implies listing.contains(
        order_key(messages, #[trigger] placed_next[i]),
    ) by {
        if i < placed.len() {
            assert(placed_next[i] == placed[i]);
        }
    }
    lemma_placed_fit(messages, listing, placed_next);

    // What was ready stays ready.
    assert forall|i: int| 0 <= i < placed_next.len() implies ready(
        messages,
        channel,
        done_next,
        #[trigger] placed_next[i],
    ) by {
        if i < placed.len() {
            assert(placed_next[i] == placed[i]);
            assert(ready(messages, channel, done, placed[i]));
        }
    }

    // No message names itself or a later one as a parent.
    assert(parents_first(messages, placed_next)) by {
        assert forall|i: int, j: int|
            0 <= i < placed_next.len() && 0 <= j < placed_next.len() && names_parent(
                messages,
                #[trigger] placed_next[i],
                #[trigger] placed_next[j],
            ) implies j < i by {
            if j == placed.len() {
                // A message that names the new one as a parent was ready
                // only with the new one done.
                let child = placed_next[i];
                assert(ready(messages, channel, done, child)) by {
                    if i < placed.len() {
                        assert(placed_next[i] == placed[i]);
                    }
                }
                let at = choose|at: int|
                    0 <= at < messages[child].parent_hashes.len()
                        && messages[child].parent_hashes[at] == MessageId(number);
                assert(messages[child].parent_hashes[at].0 == number);
                assert(done.contains(number));
            } else if i < placed.len() {
                assert(placed_next[i] == placed[i] && placed_next[j] == placed[j]);
            }
        }
    }

    // Those waiting: the others as before, and the children freed.
    assert forall|i: int| 0 <= i < waiting_next.len() implies listing.contains(
        #[trigger] waiting_next[i],
    ) && !done_next.contains(waiting_next[i].1) && ready(
        messages,
        channel,
        done_next,
        waiting_next[i].1,
    ) by {
        let key = waiting_next[i];
        if i < others.len() {
            assert(key == waiting[i + 1]);
            assert(ready(messages, channel, done, key.1));
            assert(waiting[i + 1] != waiting[0]);
            assert(key == order_key(messages, key.1));
        } else {
            assert(key == freed[i - others.len()]);
            assert(freed.contains(key));
            lemma_freed_is_new(messages, channel, listing, placed, waiting, done, key);
        }
    }
    assert(waiting_next.no_duplicates()) by {
        assert forall|i: int, j: int|
            0 <= i < waiting_next.len() && 0 <= j < waiting_next.len() && i != j implies waiting_next[i]
            != waiting_next[j] by {
            if i < others.len() && j < others.len() {
                assert(waiting[i + 1] != waiting[j + 1]);
            } else if i >= others.len() && j >= others.len() {
                assert(freed[i - others.len()] != freed[j - others.len()]);
            } else if i < others.len() {
                let key = freed[j - others.len()];
                assert(freed.contains(key));
                lemma_freed_is_new(messages, channel, listing, placed, waiting, done, key);
                assert(waiting.contains(waiting[i + 1]));
            } else {
                let key = freed[i - others.len()];
                assert(freed.contains(key));
                lemma_freed_is_new(messages, channel, listing, placed, waiting, done, key);
                assert(waiting.contains(waiting[j + 1]));
            }
        }
    }

    // Whoever is free now was free before, or is freed by this step.
    assert forall|other: u128|
        in_channel(messages, channel, other) && #[trigger] ready(
            messages,
            channel,
            done_next,
            other,
        ) implies done_next.contains(other) || waiting_next.contains(
        order_key(messages, other),
    ) by {
        let key = order_key(messages, other);
        if ready(messages, channel, done, other) {
            if !done.contains(other) {
                assert(waiting.contains(key));
                let i = choose|i: int| 0 <= i < waiting.len() && waiting[i] == key;
                if i > 0 {
                    assert(others[i - 1] == key);
                    assert(waiting_next[i - 1] == key);
                }
            }
        } else {
            let named = messages[other].parent_hashes;
            let at = choose|at: int|
                0 <= at < named.len() && in_channel(messages, channel, (#[trigger] named[at]).0)
                    && !done.contains(named[at].0);
            assert(done_next.contains(named[at].0));
            assert(named[at] == MessageId(number));
            assert(names_parent(messages, other, number));
            assert(listing.contains(key));
            assert(freed.contains(key));
            let i = choose|i: int| 0 <= i < freed.len() && freed[i] == key;
            assert(waiting_next[others.len() + i] == key);
        }
    }
}

/// A child that the first of those waiting frees was neither placed nor
/// waiting before.
pub proof fn lemma_freed_is_new(
    messages: Map<u128, MessageView>,
    channel: u128,
    listing: Seq<(u64, u128)>,
    placed: Seq<u128>,
    waiting: Seq<(u64, u128)>,
    done: Set<u128>,
    key: (u64, u128),
)
    requires
        lists_channel(messages, channel, listing),
        sound(messages, channel, listing, placed, waiting, done),
        waiting.len() > 0,
        freed_by(messages, channel, done.insert(waiting[0].1), waiting[0].1).contains(key),
    ensures
        listing.contains(key),
        ready(messages, channel, done.insert(waiting[0].1), key.1),
        !done.insert(waiting[0].1).contains(key.1),
        !waiting.contains(key),
{
    let number = waiting[0].1;
    let done_next = done.insert(number);
    lemma_freed_by(messages, channel, listing, done_next, number);
    assert(names_parent(messages, key.1, number));
    assert(listing.contains(waiting[0]));
    assert(in_channel(messages, channel, number));
    assert(!done.contains(number));
    let at = choose|at: int|
        0 <= at < messages[key.1].parent_hashes.len() && messages[key.1].parent_hashes[at]
            == MessageId(number);
    assert(messages[key.1].parent_hashes[at].0 == number);
    // Whoever names the first one as a parent was not ready before.
    assert(!ready(messages, channel, done, key.1));
    if done.contains(key.1) {
        assert(placed.to_set().contains(key.1));
        let i = choose|i: int| 0 <= i < placed.len() && placed[i] == key.1;
        assert(ready(messages, channel, done, placed[i]));
    }
    if key.1 == number {
        assert(ready(messages, channel, done, waiting[0].1));
    }
    if waiting.contains(key) {
        let i = choose|i: int| 0 <= i < waiting.len() && waiting[i] == key;
        assert(ready(messages, channel, done, waiting[i].1));
    }
}

/// A message of the channel is left out of `placed` only if one of its
/// parents in the channel is left out: only what stands on a cycle of
/// parents, or behind one, is not placed.
pub open spec fn leaves_out_only_behind_cycles(
    messages: Map<u128, MessageView>,
    channel: u128,
    placed: Seq<u128>,
) -> bool {
    forall|number: u128|
        in_channel(messages, channel, number) && !(#[trigger] placed.contains(number))
            ==> !ready(messages, channel, placed.to_set(), number)
}

/// Where the parents of a channel's messages make no cycle, an order that
/// leaves out only what stands behind a cycle leaves out nothing. That
/// there is no cycle is witnessed by `rank`, under which every message
/// stands above its parents in the channel.
pub proof fn lemma_nothing_left_out_without_cycles(
    messages: Map<u128, MessageView>,
    channel: u128,
    placed: Seq<u128>,
    rank: spec_fn(u128) -> nat,
    number: u128,
)
    requires
        leaves_out_only_behind_cycles(messages, channel, placed),
        forall|child: u128, parent: u128|
            #![trigger names_parent(messages, child, parent)]
            in_channel(messages, channel, child) && in_channel(messages, channel, parent)
                && names_parent(messages, child, parent) ==> rank(parent) < rank(child),
        in_channel(messages, channel, number),
    ensures
        placed.contains(number),
    decreases rank(number),
{
    if !placed.contains(number) {
        assert(!ready(messages, channel, placed.to_set(), number));
        let named = messages[number].parent_hashes;
        let at = choose|at: int|
            0 <= at < named.len() && in_channel(messages, channel, (#[trigger] named[at]).0)
                && !placed.to_set().contains(named[at].0);
        let parent = named[at].0;
        assert(named[at] == MessageId(parent));
        assert(names_parent(messages, number, parent));
        assert(rank(parent) < rank(number));
        lemma_nothing_left_out_without_cycles(messages, channel, placed, rank, parent);
    }
}

/// From a state that Kahn's algorithm can reach, it places every message
/// once and behind all its parents, and leaves out only what stands behind a
/// cycle of parents.
pub proof fn lemma_kahn_is_sound(
    messages: Map<u128, MessageView>,
    channel: u128,
    listing: Seq<(u64, u128)>,
    placed: Seq<u128>,
    waiting: Seq<(u64, u128)>,
    done: Set<u128>,
    steps: nat,
)
    requires
        lists_channel(messages, channel, listing),
        sound(messages, channel, listing, placed, waiting, done),
        steps == listing.len() - placed.len(),
    ensures
        ({
            let order = placed + kahn(messages, channel, waiting, done, steps);
            &&& order.no_duplicates()
            &&& parents_first(messages, order)
            &&& leaves_out_only_behind_cycles(messages, channel, order)
            &&& forall|i: int|
                0 <= i < order.len() ==> in_channel(messages, channel, #[trigger] order[i])
        }),
    decreases steps,
{
    lemma_listing_is_unique(messages, channel, listing);
    if waiting.len() == 0 {
        assert(placed + kahn(messages, channel, waiting, done, steps) =~= placed);
        assert forall|i: int| 0 <= i < placed.len() implies in_channel(
            messages,
            channel,
            #[trigger] placed[i],
        ) by {
            assert(listing.contains(order_key(messages, placed[i])));
        }
        assert forall|number: u128|
            in_channel(messages, channel, number) && !(#[trigger] placed.contains(
                number,
            )) implies !ready(messages, channel, placed.to_set(), number) by {
            if ready(messages, channel, done, number) {
                assert(done.contains(number));
            }
        }
    } else {
        lemma_step_is_sound(messages, channel, listing, placed, waiting, done);
        let first = waiting[0].1;
        let done_next = done.insert(first);
        let waiting_next = waiting.drop_first() + freed_by(messages, channel, done_next, first);
        let rest = kahn(messages, channel, waiting_next, done_next, (steps - 1) as nat);
        lemma_kahn_is_sound(
            messages,
            channel,
            listing,
            placed.push(first),
            waiting_next,
            done_next,
            (steps - 1) as nat,
        );
        assert(placed.push(first) + rest =~= placed + (seq![first] + rest));
    }
}

/// The causal order of a channel with finitely many messages holds every
/// message once and behind all its parents, and leaves a message out only if
/// it stands behind a cycle of parents.
pub proof fn lemma_causal_order_is_causal(messages: Map<u128, MessageView>, channel: u128)
    requires
        exists|listing: Seq<(u64, u128)>| lists_channel(messages, channel, listing),
    ensures
        causal_order(messages, channel).no_duplicates(),
        parents_first(messages, causal_order(messages, channel)),
        leaves_out_only_behind_cycles(messages, channel, causal_order(messages, channel)),
        forall|i: int|
            0 <= i < causal_order(messages, channel).len() ==> in_channel(
                messages,
                channel,
                #[trigger] causal_order(messages, channel)[i],
            ),
{
    let listing = channel_listing(messages, channel);
    lemma_start_is_sound(messages, channel, listing);
    lemma_kahn_is_sound(
        messages,
        channel,
        listing,
        Seq::empty(),
        roots(messages, channel),
        Set::empty(),
        listing.len(),
    );
    assert(Seq::<u128>::empty() + causal_order(messages, channel) =~= causal_order(
        messages,
        channel,
    ));
}

/// Replicas that hold the same messages show every channel in the same
/// order.
pub proof fn lemma_same_messages_same_order(
    here: Map<u128, MessageView>,
    there: Map<u128, MessageView>,
    channel: u128,
)
    requires
        here == there,
    ensures
        causal_order(here, channel) == causal_order(there, channel),
{
}

} // verus!
