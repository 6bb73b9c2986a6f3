//! Conflict-free replicated data types and the clock that stamps them.

use vstd::prelude::*;
use vstd::std_specs::cmp::PartialOrdSpecImpl;
use std::cmp::Ordering;
use crate::ids::PeerId;
use crate::crdt::hlc::wall_clock_millis;

pub mod hlc;
pub mod lww_register;
pub mod or_set;

pub use hlc::HybridLogicalClock;
pub use lww_register::LWWRegister;
pub use or_set::ORSet;

verus! {

/// A point in hybrid logical time: wall-clock milliseconds, a logical
/// counter, and the peer that stamped it. Timestamps are totally ordered by
/// these three in turn.
#[derive(Debug, Clone, Copy, PartialEq, Eq, Structural, Ord)]
pub struct Timestamp {
    /// Physical time, in milliseconds since the Unix epoch.
    pub physical: u64,
    /// Logical counter, for events within one millisecond.
    pub logical: u64,
    /// The stamping peer, which breaks the remaining ties.
    pub peer_id: PeerId,
}

impl Timestamp {
    /// The order of timestamps: `self` comes strictly before `other`.
    pub open spec fn precedes(self, other: Timestamp) -> bool {
        self.physical < other.physical || (self.physical == other.physical && (self.logical
            < other.logical || (self.logical == other.logical && self.peer_id.0
            < other.peer_id.0)))
    }

    pub fn new(physical: u64, logical: u64, peer_id: PeerId) -> (t: Self)
        ensures
            t == (Timestamp { physical, logical, peer_id }),
    {
        Timestamp { physical, logical, peer_id }
    }

    /// The timestamp of the present moment on this machine's clock, with a
    /// logical counter of zero.
    pub fn now(peer_id: PeerId) -> (t: Self)
        ensures
            t.logical == 0,
            t.peer_id == peer_id,
    {
        let physical = wall_clock_millis();
        Timestamp::new(physical, 0, peer_id)
    }
}

impl PartialOrd for Timestamp {
    fn partial_cmp(&self, other: &Self) -> (r: Option<Ordering>) {
        if self.physical < other.physical {
            Some(Ordering::Less)
        } else if self.physical > other.physical {
            Some(Ordering::Greater)
        } else if self.logical < other.logical {
            Some(Ordering::Less)
        } else if self.logical > other.logical {
            Some(Ordering::Greater)
        } else if self.peer_id.0 < other.peer_id.0 {
            Some(Ordering::Less)
        } else if self.peer_id.0 > other.peer_id.0 {
            Some(Ordering::Greater)
        } else {
            Some(Ordering::Equal)
        }
    }
}

impl PartialOrdSpecImpl for Timestamp {
    open spec fn obeys_partial_cmp_spec() -> bool {
        true
    }

    open spec fn partial_cmp_spec(&self, other: &Self) -> Option<Ordering> {
        if self.precedes(*other) {
            Some(Ordering::Less)
        } else if other.precedes(*self) {
            Some(Ordering::Greater)
        } else {
            Some(Ordering::Equal)
        }
    }
}

/// The order of timestamps is a strict total order: nothing precedes itself,
/// of two different timestamps exactly one precedes the other, and the order
/// is transitive.
pub proof fn lemma_timestamp_order_is_total(a: Timestamp, b: Timestamp, c: Timestamp)
    ensures
        !a.precedes(a),
        a.precedes(b) ==> !b.precedes(a),
        a != b ==> a.precedes(b) || b.precedes(a),
        a.precedes(b) && b.precedes(c) ==> a.precedes(c),
{
}

} // verus!
