//! The observed-remove set.

use vstd::prelude::*;
use std::collections::HashSet;
use std::hash::Hash;
use crate::outside::{fresh_uuid, is_version_seven};
use crate::setmap::{items_at, united, with_item, without_item, without_key, SetMap};
use crate::sorted::{in_order, rising};
pub use crate::setmap::lawful_key;

verus! {

/// Observed-remove set. Every add of an element puts a tag of its own on the
/// element; a remove takes away the tags that the removing replica has seen.
/// An element is in the set while it carries a tag.
///
/// The view of a set maps each element that is in it to its tags.
#[derive(Debug)]
pub struct ORSet<T: Eq + Hash + Copy> {
    elements: SetMap<T>,
}

/// The tags that `element` carries in `state`: none if it is not there.
pub open spec fn tags_in<T>(state: Map<T, Set<u128>>, element: T) -> Set<u128> {
    items_at(state, element)
}

/// `state` after an add of `element` under `tag`.
pub open spec fn with_tag<T>(state: Map<T, Set<u128>>, element: T, tag: u128) -> Map<T, Set<u128>> {
    with_item(state, element, tag)
}

/// `state` after a remove of `element`: all its tags are gone.
pub open spec fn without<T>(state: Map<T, Set<u128>>, element: T) -> Map<T, Set<u128>> {
    without_key(state, element)
}

/// `state` after `tag` alone is taken off `element`: the element leaves
/// with its last tag.
pub open spec fn without_tag<T>(state: Map<T, Set<u128>>, element: T, tag: u128) -> Map<
    T,
    Set<u128>,
> {
    without_item(state, element, tag)
}

/// The merge of two states: every element of either, with the tags it
/// carries in one or the other.
pub open spec fn merged<T>(a: Map<T, Set<u128>>, b: Map<T, Set<u128>>) -> Map<T, Set<u128>> {
    united(a, b)
}

impl<T: Eq + Hash + Copy> View for ORSet<T> {
    type V = Map<T, Set<u128>>;

    closed spec fn view(&self) -> Map<T, Set<u128>> {
        self.elements@
    }
}

impl<T: Eq + Hash + Copy> ORSet<T> {
    /// The empty set.
    pub fn new() -> (set: Self)
        ensures
            set@ == Map::<T, Set<u128>>::empty(),
    {
        ORSet { elements: SetMap::new() }
    }

    /// Adds `element` under a tag made for this add, and returns the tag.
    ///
    /// The tag is a version 7 identifier, made from the present time and
    /// random bits; whatever its value, the element is in the set afterwards,
    /// with that tag beside those it had.
    pub fn add(&mut self, element: T) -> (tag: u128)
        requires
            lawful_key::<T>(),
        ensures
            is_version_seven(tag),
            final(self)@ == with_tag(old(self)@, element, tag),
            final(self)@.contains_key(element),
    {
        let tag = fresh_uuid();
        self.add_with_tag(element, tag);
        tag
    }

    /// Adds `element` under `tag`.
    pub fn add_with_tag(&mut self, element: T, tag: u128)
        requires
            lawful_key::<T>(),
        ensures
            final(self)@ == with_tag(old(self)@, element, tag),
            final(self)@.contains_key(element),
    {
        self.elements.insert(element, tag);
    }

    /// Removes `element`: takes away every tag it carries here. Removing an
    /// element that is not in the set changes nothing.
    pub fn remove(&mut self, element: &T)
        requires
            lawful_key::<T>(),
        ensures
            final(self)@ == without(old(self)@, *element),
            !final(self)@.contains_key(*element),
    {
        self.elements.remove_key(element);
    }

    /// Takes `tag` alone off `element`. The element leaves the set with its
    /// last tag.
    pub fn remove_tag(&mut self, element: &T, tag: u128)
        requires
            lawful_key::<T>(),
        ensures
            final(self)@ == without_tag(old(self)@, *element, tag),
    {
        self.elements.remove_item(element, tag);
    }

    /// Whether `element` is in the set.
    pub fn contains(&self, element: &T) -> (present: bool)
        requires
            lawful_key::<T>(),
        ensures
            present == self@.contains_key(*element),
    {
        self.elements.contains_key(element)
    }

    /// The elements of the set, each once, in no particular order.
    pub fn elements(&self) -> (all: Vec<T>)
        requires
            lawful_key::<T>(),
        ensures
            all@.no_duplicates(),
            all@.to_set() == self@.dom(),
    {
        self.elements.keys()
    }

    /// The tags of `element`, if it is in the set: an element that is in the
    /// set carries a tag.
    pub fn tags(&self, element: &T) -> (found: Option<&HashSet<u128>>)
        requires
            lawful_key::<T>(),
        ensures
            match found {
                Some(tags) => self@.contains_key(*element) && tags@ == self@[*element]
                    && !tags@.is_empty(),
                None => !self@.contains_key(*element),
            },
    {
        self.elements.get(element)
    }

    /// Every element that is in the set carries a tag: the view holds no
    /// element with an empty set of tags.
    pub proof fn lemma_present_carries_tag(&self)
        ensures
            forall|element: T| #[trigger]
                self@.contains_key(element) ==> !self@[element].is_empty(),
    {
        self.elements.lemma_no_empty_set();
    }

    /// Merges another replica of the set into this one: every element of the
    /// other comes in with the tags it carries there, beside those it
    /// carries here.
    pub fn merge(&mut self, other: &ORSet<T>)
        requires
            lawful_key::<T>(),
        ensures
            final(self)@ == merged(old(self)@, other@),
    {
        self.elements.merge(&other.elements);
    }

    /// The number of elements in the set.
    pub fn len(&self) -> (n: usize)
        requires
            lawful_key::<T>(),
        ensures
            n == self@.dom().len(),
    {
        self.elements.len()
    }

    /// Whether the set has no element.
    pub fn is_empty(&self) -> (empty: bool)
        requires
            lawful_key::<T>(),
        ensures
            empty == (self@.dom().len() == 0),
    {
        self.elements.is_empty()
    }
}

impl ORSet<u128> {
    /// The elements with their tags, elements and tags in rising order: the
    /// order in which a set is written down, so that equal sets are written
    /// alike.
    pub fn entries(&self) -> (entries: Vec<(u128, Vec<u128>)>)
        ensures
            forall|i: int, j: int| 0 <= i < j < entries@.len() ==> entries@[i].0 < entries@[j].0,
            forall|i: int|
                0 <= i < entries@.len() ==> {
                    &&& self@.contains_key((#[trigger] entries@[i]).0)
                    &&& rising(entries@[i].1@)
                    &&& forall|tag: u128|
                        entries@[i].1@.contains(tag) <==> self@[entries@[i].0].contains(tag)
                },
            forall|element: u128|
                self@.contains_key(element) ==> exists|i: int|
                    0 <= i < entries@.len() && (#[trigger] entries@[i]).0 == element,
    {
        broadcast use vstd::std_specs::hash::group_hash_axioms;
        let elements = self.elements.keys();
        let sorted = in_order(&elements);
        let mut entries: Vec<(u128, Vec<u128>)> = Vec::new();
        let mut i: usize = 0;
        proof {
            assert forall|element: u128| sorted@.contains(element) <==> self@.contains_key(
                element,
            ) by {
                assert(elements@.contains(element) <==> elements@.to_set().contains(element));
            }
        }
        while i < sorted.len()
            invariant
                i <= sorted.len(),
                entries@.len() == i,
                forall|element: u128| sorted@.contains(element) <==> self@.contains_key(element),
                forall|k: int|
                    0 <= k < i ==> {
                        &&& (#[trigger] entries@[k]).0 == sorted@[k]
                        &&& rising(entries@[k].1@)
                        &&& forall|tag: u128|
                            entries@[k].1@.contains(tag) <==> self@[sorted@[k]].contains(tag)
                    },
            decreases sorted.len() - i,
        {
            let element = sorted[i];
            assert(sorted@.contains(element));
            let carried = self.elements.items(&element);
            let tags = in_order(&carried);
            proof {
                assert forall|tag: u128| tags@.contains(tag) <==> self@[element].contains(tag) by {
                    assert(carried@.contains(tag) <==> carried@.to_set().contains(tag));
                }
            }
            entries.push((element, tags));
            i = i + 1;
        }
        proof {
            assert forall|k: int| 0 <= k < entries@.len() implies self@.contains_key(
                (#[trigger] entries@[k]).0,
            ) by {
                assert(sorted@.contains(sorted@[k]));
            }
            assert forall|element: u128| self@.contains_key(element) implies exists|i: int|
                0 <= i < entries@.len() && (#[trigger] entries@[i]).0 == element by {
                assert(sorted@.contains(element));
                let i = choose|i: int| 0 <= i < sorted@.len() && sorted@[i] == element;
                assert(entries@[i].0 == element);
            }
            assert forall|i: int, j: int| 0 <= i < j < entries@.len() implies entries@[i].0
                < entries@[j].0 by {
                assert(entries@[i].0 == sorted@[i] && entries@[j].0 == sorted@[j]);
            }
        }
        entries
    }
}

impl<T: Eq + Hash + Copy> Default for ORSet<T> {
    fn default() -> (set: Self)
        ensures
            set@ == Map::<T, Set<u128>>::empty(),
    {
        ORSet::new()
    }
}

impl<T: Eq + Hash + Copy> Clone for ORSet<T> {
    fn clone(&self) -> (copy: Self)
        ensures
            copy@ == self@,
    {
        ORSet { elements: self.elements.clone() }
    }
}

/// An add at one replica outlives a remove at another that has not seen it:
/// whatever the first replica has added and then removed, after a merge with
/// a replica that has added `element` under `tag`, the element is in the set
/// and carries that tag; it is so at both replicas once each has merged the
/// other, and the two hold the same set.
pub proof fn lemma_concurrent_add_survives_remove<T>(
    here: Map<T, Set<u128>>,
    there: Map<T, Set<u128>>,
    element: T,
    own_tag: u128,
    tag: u128,
)
    ensures
        ({
            let removed = without(with_tag(here, element, own_tag), element);
            let added = with_tag(there, element, tag);
            &&& merged(removed, added).contains_key(element)
            &&& merged(removed, added)[element].contains(tag)
            &&& merged(added, removed).contains_key(element)
            &&& merged(added, removed) == merged(removed, added)
        }),
{
    let removed = without(with_tag(here, element, own_tag), element);
    let added = with_tag(there, element, tag);
    crate::setmap::lemma_united_commutative(removed, added);
}

/// Merging a set with itself changes nothing, the merge of two sets does not
/// depend on which is merged into which, and the merge of three does not
/// depend on how they are grouped.
pub proof fn lemma_merge_is_a_join<T>(a: Map<T, Set<u128>>, b: Map<T, Set<u128>>, c: Map<T, Set<u128>>)
    ensures
        merged(a, a) == a,
        merged(a, b) == merged(b, a),
        merged(merged(a, b), c) == merged(a, merged(b, c)),
{
    crate::setmap::lemma_united_idempotent(a);
    crate::setmap::lemma_united_commutative(a, b);
    crate::setmap::lemma_united_associative(a, b, c);
}

} // verus!
