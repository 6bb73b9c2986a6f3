//! A map from keys to sets of identifiers, kept in hash collections.

use vstd::prelude::*;
use vstd::std_specs::hash::*;
use std::collections::{HashMap, HashSet};
use std::hash::Hash;
use crate::collect::{lemma_take_all, lemma_take_next, map_keys, set_items};

verus! {

/// A map from keys to sets of 128-bit identifiers. A key is in the map while
/// its set is not empty.
///
/// The view maps each key that is in the map to its set.
#[derive(Debug)]
pub struct SetMap<T: Eq + Hash + Copy> {
    elements: HashMap<T, HashSet<u128>>,
}

/// The set that `state` holds for `key`: empty if the key is not there.
pub open spec fn items_at<T>(state: Map<T, Set<u128>>, key: T) -> Set<u128> {
    if state.contains_key(key) {
        state[key]
    } else {
        Set::empty()
    }
}

/// `state` after `item` has been put into the set of `key`.
pub open spec fn with_item<T>(state: Map<T, Set<u128>>, key: T, item: u128) -> Map<T, Set<u128>> {
    state.insert(key, items_at(state, key).insert(item))
}

/// `state` without the key `key`.
pub open spec fn without_key<T>(state: Map<T, Set<u128>>, key: T) -> Map<T, Set<u128>> {
    state.remove(key)
}

/// `state` after `item` has been taken out of the set of `key`: the key
/// leaves with its last item.
pub open spec fn without_item<T>(state: Map<T, Set<u128>>, key: T, item: u128) -> Map<
    T,
    Set<u128>,
> {
    if !state.contains_key(key) {
        state
    } else if state[key].remove(item).is_empty() {
        state.remove(key)
    } else {
        state.insert(key, state[key].remove(item))
    }
}

/// The union of two states: every key of either, with the items of its set
/// in one or the other.
pub open spec fn united<T>(a: Map<T, Set<u128>>, b: Map<T, Set<u128>>) -> Map<T, Set<u128>> {
    Map::new(
        |key: T| a.contains_key(key) || b.contains_key(key),
        |key: T| items_at(a, key).union(items_at(b, key)),
    )
}

/// Whether the hashing and equality of `T` are those of a lawful key, as the
/// contracts of the standard hash collections need it.
pub open spec fn lawful_key<T>() -> bool {
    obeys_key_model::<T>()
}

impl<T: Eq + Hash + Copy> View for SetMap<T> {
    type V = Map<T, Set<u128>>;

    closed spec fn view(&self) -> Map<T, Set<u128>> {
        Map::new(
            |key: T|
                self.elements@.contains_key(key) && !self.elements@[key]@.is_empty(),
            |key: T| self.elements@[key]@,
        )
    }
}

impl<T: Eq + Hash + Copy> SetMap<T> {
    /// The items kept for `key`, none where nothing is kept for it.
    spec fn kept(&self, key: T) -> Set<u128> {
        if self.elements@.contains_key(key) {
            self.elements@[key]@
        } else {
            Set::empty()
        }
    }

    /// What is kept for a key is its set in the view.
    proof fn lemma_kept_is_items_at(&self, key: T)
        ensures
            self.kept(key) == items_at(self@, key),
            self@.contains_key(key) <==> !self.kept(key).is_empty(),
    {
    }

    /// No key of the map has an empty set.
    pub proof fn lemma_no_empty_set(&self)
        ensures
            forall|key: T| #[trigger] self@.contains_key(key) ==> !self@[key].is_empty(),
    {
    }

    /// The empty map.
    pub fn new() -> (set: Self)
        ensures
            set@ == Map::<T, Set<u128>>::empty(),
    {
        let set = SetMap { elements: HashMap::new() };
        assert(set@ =~= Map::<T, Set<u128>>::empty());
        set
    }

    /// Puts `item` into the set of `key`.
    pub fn insert(&mut self, key: T, item: u128)
        requires
            lawful_key::<T>(),
        ensures
            final(self)@ == with_item(old(self)@, key, item),
    {
        broadcast use group_hash_axioms;
        proof {
            self.lemma_kept_is_items_at(key);
        }
        let mut set = match self.elements.remove(&key) {
            Some(set) => set,
            None => HashSet::new(),
        };
        set.insert(item);
        assert(set@.contains(item));
        self.elements.insert(key, set);
        assert(self@ =~= with_item(old(self)@, key, item));
    }

    /// Takes the key `key` out, with all of its set.
    pub fn remove_key(&mut self, key: &T)
        requires
            lawful_key::<T>(),
        ensures
            final(self)@ == without_key(old(self)@, *key),
    {
        broadcast use group_hash_axioms;
        self.elements.remove(key);
        assert(self@ =~= without_key(old(self)@, *key));
    }

    /// Takes `item` out of the set of `key`. The key leaves with its last
    /// item.
    pub fn remove_item(&mut self, key: &T, item: u128)
        requires
            lawful_key::<T>(),
        ensures
            final(self)@ == without_item(old(self)@, *key, item),
    {
        broadcast use group_hash_axioms;
        proof {
            self.lemma_kept_is_items_at(*key);
        }
        match self.elements.remove(key) {
            Some(mut set) => {
                set.remove(&item);
                if !set.is_empty() {
                    self.elements.insert(*key, set);
                }
            },
            None => {},
        }
        assert(self@ =~= without_item(old(self)@, *key, item));
    }

    /// Whether the key `key` is in the map.
    pub fn contains_key(&self, key: &T) -> (present: bool)
        requires
            lawful_key::<T>(),
        ensures
            present == self@.contains_key(*key),
    {
        broadcast use group_hash_axioms;
        proof {
            self.lemma_kept_is_items_at(*key);
        }
        match self.elements.get(key) {
            Some(set) => !set.is_empty(),
            None => false,
        }
    }

    /// The keys of the map, each once, in no particular order.
    pub fn keys(&self) -> (all: Vec<T>)
        requires
            lawful_key::<T>(),
        ensures
            all@.no_duplicates(),
            all@.to_set() == self@.dom(),
    {
        broadcast use group_hash_axioms;
        let keys = map_keys(&self.elements);
        let mut all: Vec<T> = Vec::new();
        let mut i: usize = 0;
        while i < keys.len()
            invariant
                lawful_key::<T>(),
                i <= keys.len(),
                keys@.no_duplicates(),
                keys@.to_set() == self.elements@.dom(),
                all@.no_duplicates(),
                forall|key: T| #[trigger]
                    all@.contains(key) <==> keys@.take(i as int).contains(key)
                        && self@.contains_key(key),
            decreases keys.len() - i,
        {
            let key = keys[i];
            assert(keys@.to_set().contains(key));
            proof {
                self.lemma_kept_is_items_at(key);
                lemma_take_next(keys@, i as int);
            }
            let tagged = match self.elements.get(&key) {
                Some(set) => !set.is_empty(),
                None => false,
            };
            if tagged {
                let ghost before = all@;
                assert(!before.contains(key));
                all.push(key);
                assert(all@.no_duplicates()) by {
                    assert forall|a: int, b: int| 0 <= a < b < all@.len() implies all@[a]
                        != all@[b] by {
                        if b == before.len() {
                            assert(before[a] == all@[a]);
                        } else {
                            assert(before[a] == all@[a] && before[b] == all@[b]);
                        }
                    }
                }
                assert forall|other: T| #[trigger]
                    all@.contains(other) <==> keys@.take(i + 1).contains(other)
                        && self@.contains_key(other) by {
                    if all@.contains(other) {
                        let j = choose|j: int| 0 <= j < all@.len() && all@[j] == other;
                        if j < before.len() {
                            assert(before[j] == other);
                            assert(before.contains(other));
                        }
                    }
                    if keys@.take(i + 1).contains(other) && self@.contains_key(other) {
                        if other == key {
                            assert(all@[before.len() as int] == other);
                        } else {
                            assert(before.contains(other));
                            let j = choose|j: int| 0 <= j < before.len() && before[j] == other;
                            assert(all@[j] == other);
                        }
                    }
                }
            }
            i = i + 1;
        }
        proof {
            lemma_take_all(keys@);
            assert forall|key: T| all@.to_set().contains(key) <==> self@.dom().contains(
                key,
            ) by {
                if self@.dom().contains(key) {
                    assert(self.elements@.dom().contains(key));
                    assert(keys@.to_set().contains(key));
                }
            }
            assert(all@.to_set() =~= self@.dom());
        }
        all
    }

    /// The set of `key`, if the key is in the map; the set is not empty then.
    pub fn get(&self, key: &T) -> (found: Option<&HashSet<u128>>)
        requires
            lawful_key::<T>(),
        ensures
            match found {
                Some(set) => self@.contains_key(*key) && set@ == self@[*key] && !set@.is_empty(),
                None => !self@.contains_key(*key),
            },
    {
        broadcast use group_hash_axioms;
        proof {
            self.lemma_kept_is_items_at(*key);
        }
        match self.elements.get(key) {
            Some(set) => {
                if set.is_empty() {
                    None
                } else {
                    Some(set)
                }
            },
            None => None,
        }
    }

    /// Brings in all of `other`: every key of it, with the items of its set
    /// there beside those of its set here.
    pub fn merge(&mut self, other: &SetMap<T>)
        requires
            lawful_key::<T>(),
        ensures
            final(self)@ == united(old(self)@, other@),
    {
        broadcast use group_hash_axioms;
        let keys = map_keys(&other.elements);
        let mut i: usize = 0;
        while i < keys.len()
            invariant
                lawful_key::<T>(),
                i <= keys.len(),
                keys@.no_duplicates(),
                keys@.to_set() == other.elements@.dom(),
                forall|key: T| #[trigger]
                    self.kept(key) == old(self).kept(key).union(
                        if keys@.take(i as int).contains(key) {
                            other.kept(key)
                        } else {
                            Set::empty()
                        },
                    ),
            decreases keys.len() - i,
        {
            let key = keys[i];
            assert(keys@.to_set().contains(key));
            let ghost before = *self;
            proof {
                lemma_take_next(keys@, i as int);
            }
            match other.elements.get(&key) {
                Some(other_set) => {
                    let incoming = set_items(other_set);
                    let mut set = match self.elements.remove(&key) {
                        Some(set) => set,
                        None => HashSet::new(),
                    };
                    let ghost own = set@;
                    assert(own == before.kept(key));
                    let mut j: usize = 0;
                    while j < incoming.len()
                        invariant
                            j <= incoming.len(),
                            set@ =~= own.union(incoming@.take(j as int).to_set()),
                        decreases incoming.len() - j,
                    {
                        set.insert(incoming[j]);
                        proof {
                            lemma_take_next(incoming@, j as int);
                        }
                        j = j + 1;
                    }
                    proof {
                        lemma_take_all(incoming@);
                    }
                    assert(set@ =~= own.union(other_set@));
                    self.elements.insert(key, set);
                    assert(self.kept(key) == before.kept(key).union(other.kept(key)));
                },
                None => {},
            }
            proof {
                assert forall|any: T| #[trigger]
                    self.kept(any) == old(self).kept(any).union(
                        if keys@.take(i + 1).contains(any) {
                            other.kept(any)
                        } else {
                            Set::empty()
                        },
                    ) by {
                    if any != key {
                        assert(self.kept(any) == before.kept(any));
                    } else {
                        assert(before.kept(any) =~= old(self).kept(any).union(Set::empty()));
                    }
                }
            }
            i = i + 1;
        }
        proof {
            lemma_take_all(keys@);
            assert forall|key: T|
                items_at(self@, key) == #[trigger] items_at(united(old(self)@, other@), key) by {
                self.lemma_kept_is_items_at(key);
                old(self).lemma_kept_is_items_at(key);
                other.lemma_kept_is_items_at(key);
                if !keys@.contains(key) {
                    assert(!keys@.to_set().contains(key));
                    assert(other.kept(key) =~= Set::empty());
                } else {
                    assert(keys@.to_set().contains(key));
                }
                assert(items_at(united(old(self)@, other@), key) =~= items_at(
                    old(self)@,
                    key,
                ).union(items_at(other@, key)));
                assert(self.kept(key) =~= old(self).kept(key).union(other.kept(key)));
            }
            assert forall|key: T| #[trigger]
                united(old(self)@, other@).contains_key(key) implies !united(
                old(self)@,
                other@,
            )[key].is_empty() by {
                if old(self)@.contains_key(key) {
                    let item = choose|item: u128| old(self)@[key].contains(item);
                    assert(united(old(self)@, other@)[key].contains(item));
                } else {
                    let item = choose|item: u128| other@[key].contains(item);
                    assert(united(old(self)@, other@)[key].contains(item));
                }
            }
            lemma_equal_items_equal_states(self@, united(old(self)@, other@));
        }
    }

    /// The items of the set of `key`, each once, in no particular order.
    pub fn items(&self, key: &T) -> (all: Vec<u128>)
        requires
            lawful_key::<T>(),
        ensures
            all@.no_duplicates(),
            all@.to_set() == items_at(self@, *key),
    {
        broadcast use group_hash_axioms;
        proof {
            self.lemma_kept_is_items_at(*key);
        }
        match self.elements.get(key) {
            Some(kept) => set_items(kept),
            None => {
                let all: Vec<u128> = Vec::new();
                assert(all@.to_set() =~= Set::<u128>::empty());
                all
            },
        }
    }

    /// Takes every key out.
    pub fn clear(&mut self)
        ensures
            final(self)@ == Map::<T, Set<u128>>::empty(),
    {
        self.elements.clear();
        assert(self@ =~= Map::<T, Set<u128>>::empty());
    }

    /// The number of keys in the map.
    pub fn len(&self) -> (n: usize)
        requires
            lawful_key::<T>(),
        ensures
            n == self@.dom().len(),
    {
        let all = self.keys();
        proof {
            all@.unique_seq_to_set();
        }
        all.len()
    }

    /// Whether the map has no key.
    pub fn is_empty(&self) -> (empty: bool)
        requires
            lawful_key::<T>(),
        ensures
            empty == (self@.dom().len() == 0),
    {
        self.len() == 0
    }
}

impl<T: Eq + Hash + Copy> Default for SetMap<T> {
    fn default() -> (set: Self)
        ensures
            set@ == Map::<T, Set<u128>>::empty(),
    {
        SetMap::new()
    }
}

impl<T: Eq + Hash + Copy> Clone for SetMap<T> {
    fn clone(&self) -> (copy: Self)
        ensures
            copy@ == self@,
    {
        let copy = SetMap { elements: self.elements.clone() };
        assert(copy@ =~= self@);
        copy
    }
}

/// States in which no key has an empty set are equal as soon as every key
/// has the same set in both.
pub proof fn lemma_equal_items_equal_states<T>(a: Map<T, Set<u128>>, b: Map<T, Set<u128>>)
    requires
        forall|key: T| #[trigger] a.contains_key(key) ==> !a[key].is_empty(),
        forall|key: T| #[trigger] b.contains_key(key) ==> !b[key].is_empty(),
        forall|key: T| items_at(a, key) == #[trigger] items_at(b, key),
    ensures
        a == b,
{
    assert forall|key: T| a.contains_key(key) == b.contains_key(key) by {
        assert(items_at(a, key) == items_at(b, key));
    }
    assert forall|key: T| a.contains_key(key) implies a[key] == b[key] by {
        assert(items_at(a, key) == items_at(b, key));
    }
    assert(a =~= b);
}

/// The union of a state with itself is that state.
pub proof fn lemma_united_idempotent<T>(a: Map<T, Set<u128>>)
    ensures
        united(a, a) == a,
{
    assert forall|key: T| a.contains_key(key) implies #[trigger] united(a, a)[key]
        == a[key] by {
        assert(a[key].union(a[key]) =~= a[key]);
    }
    assert(united(a, a) =~= a);
}

/// The union of two states does not depend on their order.
pub proof fn lemma_united_commutative<T>(a: Map<T, Set<u128>>, b: Map<T, Set<u128>>)
    ensures
        united(a, b) == united(b, a),
{
    assert forall|key: T| #[trigger]
        united(a, b).contains_key(key) implies united(a, b)[key] == united(
        b,
        a,
    )[key] by {
        assert(items_at(a, key).union(items_at(b, key)) =~= items_at(b, key).union(
            items_at(a, key),
        ));
    }
    assert(united(a, b) =~= united(b, a));
}

/// The union of three states does not depend on how they are grouped.
pub proof fn lemma_united_associative<T>(
    a: Map<T, Set<u128>>,
    b: Map<T, Set<u128>>,
    c: Map<T, Set<u128>>,
)
    ensures
        united(united(a, b), c) == united(a, united(b, c)),
{
    assert forall|key: T| #[trigger]
        united(united(a, b), c).contains_key(key) implies united(united(a, b), c)[key]
        == united(a, united(b, c))[key] by {
        assert(items_at(united(a, b), key) =~= items_at(a, key).union(items_at(b, key)));
        assert(items_at(united(b, c), key) =~= items_at(b, key).union(items_at(c, key)));
        assert(items_at(a, key).union(items_at(b, key)).union(items_at(c, key))
            =~= items_at(a, key).union(items_at(b, key).union(items_at(c, key))));
    }
    assert(united(united(a, b), c) =~= united(a, united(b, c)));
}

} // verus!
