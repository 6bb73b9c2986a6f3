//! The last-write-wins register.

use vstd::prelude::*;
use crate::crdt::Timestamp;

verus! {

/// Last-write-wins register: a value with the timestamp of its writing. Of two
/// writes the one with the greater timestamp stays.
#[derive(Debug)]
pub struct LWWRegister<T> {
    value: T,
    timestamp: Timestamp,
}

/// What a register holding `current` holds after it has met `incoming`: the
/// incoming pair if its timestamp is strictly greater, else what it held.
pub open spec fn lww_merge<T>(current: (T, Timestamp), incoming: (T, Timestamp)) -> (T, Timestamp) {
    if current.1.precedes(incoming.1) {
        incoming
    } else {
        current
    }
}

impl<T> View for LWWRegister<T> {
    type V = (T, Timestamp);

    /// The value held and the timestamp of its writing.
    closed spec fn view(&self) -> (T, Timestamp) {
        (self.value, self.timestamp)
    }
}

impl<T: Clone> LWWRegister<T> {
    pub fn new(value: T, timestamp: Timestamp) -> (r: Self)
        ensures
            r@ == (value, timestamp),
    {
        LWWRegister { value, timestamp }
    }

    /// The value held.
    pub fn value(&self) -> (v: &T)
        ensures
            *v == self@.0,
    {
        &self.value
    }

    /// The timestamp of the write that the register holds.
    pub fn timestamp(&self) -> (t: Timestamp)
        ensures
            t == self@.1,
    {
        self.timestamp
    }

    /// Writes `value` at `timestamp`. The write is dropped unless `timestamp`
    /// is strictly greater than that of the value held.
    pub fn set(&mut self, value: T, timestamp: Timestamp)
        ensures
            final(self)@ == lww_merge(old(self)@, (value, timestamp)),
    {
        if timestamp > self.timestamp {
            self.value = value;
            self.timestamp = timestamp;
        }
    }

    /// Merges another replica of the register into this one: takes over the
    /// other's value and timestamp if and only if the other's timestamp is
    /// strictly greater. The value taken over is a clone of the other's.
    pub fn merge(&mut self, other: &LWWRegister<T>)
        ensures
            final(self)@.1 == lww_merge(old(self)@, other@).1,
            old(self)@.1.precedes(other@.1) ==> cloned(other@.0, final(self)@.0),
            !old(self)@.1.precedes(other@.1) ==> final(self)@ == old(self)@,
    {
        if other.timestamp > self.timestamp {
            self.value = other.value.clone();
            self.timestamp = other.timestamp;
        }
    }
}

impl<T: Clone> Clone for LWWRegister<T> {
    fn clone(&self) -> (copy: Self)
        ensures
            copy@.1 == self@.1,
            cloned(self@.0, copy@.0),
    {
        LWWRegister { value: self.value.clone(), timestamp: self.timestamp }
    }
}

/// Merging a register with itself changes nothing.
pub proof fn lemma_lww_merge_idempotent<T>(a: (T, Timestamp))
    ensures
        lww_merge(a, a) == a,
{
}

/// Merging is commutative for registers that do not hold two different
/// values under one timestamp.
pub proof fn lemma_lww_merge_commutative<T>(a: (T, Timestamp), b: (T, Timestamp))
    requires
        a.1 == b.1 ==> a.0 == b.0,
    ensures
        lww_merge(a, b) == lww_merge(b, a),
{
}

/// Merging is associative.
pub proof fn lemma_lww_merge_associative<T>(a: (T, Timestamp), b: (T, Timestamp), c: (T, Timestamp))
    ensures
        lww_merge(lww_merge(a, b), c) == lww_merge(a, lww_merge(b, c)),
{
}

} // verus!
