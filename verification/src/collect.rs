//! Walking hash collections: what a set or a map holds, as a vector.
//!
//! A hash collection is walked in an order that nothing fixes. The functions
//! here walk one once and hand back what it holds, each item once; the rest
//! of the library works on such vectors by index.

use vstd::prelude::*;
use vstd::std_specs::hash::*;
use vstd::std_specs::iter::IteratorSpec;
use std::collections::{HashMap, HashSet};
use std::hash::Hash;

verus! {

/// The items of `set`, each once, in the order in which the set is walked.
pub fn set_items<K: Copy + Eq + Hash>(set: &HashSet<K>) -> (items: Vec<K>)
    requires
        obeys_key_model::<K>(),
    ensures
        items@.no_duplicates(),
        items@.to_set() == set@,
        items@.len() == set@.len(),
{
    broadcast use group_hash_axioms;
    let mut items: Vec<K> = Vec::new();
    for item in walk: set.iter()
        invariant
            walk.seq() == spec_hash_keys_iter(set).remaining(),
            items@ == walk.seq().unref().take(walk.index()),
    {
        items.push(*item);
        assert(items@ =~= walk.seq().unref().take(walk.index() + 1));
    }
    proof {
        let whole = spec_hash_keys_iter(set).remaining();
        assert(items@ =~= whole.unref());
        assert forall|i: int, j: int| 0 <= i < j < items@.len() implies items@[i] != items@[j] by {
            assert(whole[i] != whole[j]);
        }
    }
    items
}

/// The keys of `map`, each once, in the order in which the map is walked.
pub fn map_keys<K: Copy + Eq + Hash, V>(map: &HashMap<K, V>) -> (keys: Vec<K>)
    requires
        obeys_key_model::<K>(),
    ensures
        keys@.no_duplicates(),
        keys@.to_set() == map@.dom(),
        keys@.len() == map@.dom().len(),
{
    broadcast use group_hash_axioms;
    let mut keys: Vec<K> = Vec::new();
    for key in walk: map.keys()
        invariant
            walk.seq() == spec_keys_iter(map).remaining(),
            keys@ == walk.seq().unref().take(walk.index()),
    {
        keys.push(*key);
        assert(keys@ =~= walk.seq().unref().take(walk.index() + 1));
    }
    proof {
        let whole = spec_keys_iter(map).remaining();
        assert(keys@ =~= whole.unref());
        assert forall|i: int, j: int| 0 <= i < j < keys@.len() implies keys@[i] != keys@[j] by {
            assert(whole[i] != whole[j]);
        }
    }
    keys
}

/// The first `i + 1` items of a sequence are its first `i` and the item at
/// `i`; in a sequence without duplicates that item is not among the first
/// `i`.
pub proof fn lemma_take_next<A>(s: Seq<A>, i: int)
    requires
        0 <= i < s.len(),
    ensures
        s.take(i + 1) == s.take(i).push(s[i]),
        s.take(i + 1).to_set() == s.take(i).to_set().insert(s[i]),
        forall|x: A| #[trigger] s.take(i + 1).contains(x) <==> s.take(i).contains(x) || x == s[i],
        s.no_duplicates() ==> !s.take(i).contains(s[i]),
{
    let shorter = s.take(i);
    let longer = s.take(i + 1);
    assert(longer =~= shorter.push(s[i]));
    assert forall|x: A| #[trigger] longer.contains(x) <==> shorter.contains(x) || x == s[i] by {
        if longer.contains(x) {
            let j = choose|j: int| 0 <= j < longer.len() && longer[j] == x;
            if j < i {
                assert(shorter[j] == x);
            }
        }
        if shorter.contains(x) {
            let j = choose|j: int| 0 <= j < shorter.len() && shorter[j] == x;
            assert(longer[j] == x);
        }
        if x == s[i] {
            assert(longer[i] == x);
        }
    }
    assert(longer.to_set() =~= shorter.to_set().insert(s[i]));
    if s.no_duplicates() && shorter.contains(s[i]) {
        let j = choose|j: int| 0 <= j < shorter.len() && shorter[j] == s[i];
        assert(s[j] == s[i]);
    }
}

/// Taking all of a sequence gives the sequence.
pub proof fn lemma_take_all<A>(s: Seq<A>)
    ensures
        s.take(s.len() as int) == s,
{
    assert(s.take(s.len() as int) =~= s);
}

} // verus!
