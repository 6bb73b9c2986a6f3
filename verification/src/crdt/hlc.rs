//! The hybrid logical clock.

use vstd::prelude::*;
use crate::crdt::Timestamp;
use crate::ids::PeerId;
use crate::outside::wall_clock_nanos;

verus! {

/// Hybrid logical clock: stamps the events of one peer with timestamps that
/// only ever grow, and that stay close to physical time.
#[derive(Debug, Clone, Copy)]
pub struct HybridLogicalClock {
    peer_id: PeerId,
    latest: Timestamp,
}

/// The timestamp that a clock of `peer` whose last timestamp is `latest`
/// emits for a local event when the wall clock reads `now`.
pub open spec fn ticked(peer: PeerId, latest: Timestamp, now: u64) -> Timestamp {
    if now > latest.physical {
        Timestamp { physical: now, logical: 0, peer_id: peer }
    } else {
        Timestamp { physical: latest.physical, logical: (latest.logical + 1) as u64, peer_id: peer }
    }
}

/// The greatest of three physical times.
pub open spec fn latest_physical(now: u64, local: u64, remote: u64) -> u64 {
    if now >= local && now >= remote {
        now
    } else if local >= remote {
        local
    } else {
        remote
    }
}

/// The logical counter that follows the receipt of `remote` at a clock whose
/// last timestamp is `latest`, when the wall clock reads `now`.
pub open spec fn merged_logical(latest: Timestamp, remote: Timestamp, now: u64) -> int {
    if now > latest.physical && now > remote.physical {
        0
    } else if latest.physical == remote.physical {
        if latest.logical >= remote.logical {
            latest.logical + 1
        } else {
            remote.logical + 1
        }
    } else if latest.physical > remote.physical {
        latest.logical + 1
    } else {
        remote.logical + 1
    }
}

/// The timestamp that a clock of `peer` whose last timestamp is `latest`
/// emits on receipt of `remote` when the wall clock reads `now`.
pub open spec fn updated(peer: PeerId, latest: Timestamp, remote: Timestamp, now: u64) -> Timestamp {
    Timestamp {
        physical: latest_physical(now, latest.physical, remote.physical),
        logical: merged_logical(latest, remote, now) as u64,
        peer_id: peer,
    }
}

/// The wall clock's reading in milliseconds since the Unix epoch, kept to
/// sixty-four bits: [`millis_of_nanos`] of what the clock reads. The reading
/// is the machine's, so nothing is known of it.
pub fn wall_clock_millis() -> (now: u64) {
    let nanos = epoch_nanos();
    millis_of_nanos(nanos)
}

/// The wall clock's reading in nanoseconds since the Unix epoch:
/// [`nanos_or_zero`] of what the clock reads. The reading is the machine's,
/// so nothing is known of it.
pub fn epoch_nanos() -> (now: u128) {
    nanos_or_zero(wall_clock_nanos())
}

/// The nanoseconds of a reading of the wall clock; zero for a clock that
/// stands before the Unix epoch and so gives no reading.
pub fn nanos_or_zero(reading: Option<u128>) -> (nanos: u128)
    ensures
        nanos == match reading {
            Some(nanos) => nanos,
            None => 0,
        },
{
    match reading {
        Some(nanos) => nanos,
        None => 0,
    }
}

/// The whole milliseconds in `nanos` nanoseconds, kept to their low
/// sixty-four bits.
pub open spec fn millis_of(nanos: u128) -> u64 {
    ((nanos / 1_000_000) % 0x1_0000_0000_0000_0000) as u64
}

/// The whole milliseconds in `nanos` nanoseconds, kept to their low
/// sixty-four bits.
pub fn millis_of_nanos(nanos: u128) -> (millis: u64)
    ensures
        millis == millis_of(nanos),
{
    ((nanos / 1_000_000) % 0x1_0000_0000_0000_0000) as u64
}

impl HybridLogicalClock {
    /// The peer whose events this clock stamps.
    pub closed spec fn peer(&self) -> PeerId {
        self.peer_id
    }

    /// The last timestamp this clock emitted.
    pub closed spec fn spec_latest(&self) -> Timestamp {
        self.latest
    }

    /// A clock for `peer_id` that starts at the present wall-clock time.
    pub fn new(peer_id: PeerId) -> (clock: Self)
        ensures
            clock.peer() == peer_id,
            clock.latest().logical == 0,
            clock.latest().peer_id == peer_id,
    {
        let now = wall_clock_millis();
        HybridLogicalClock::starting_at(peer_id, now)
    }

    /// A clock for `peer_id` that starts at the wall-clock reading `now`.
    pub fn starting_at(peer_id: PeerId, now: u64) -> (clock: Self)
        ensures
            clock.peer() == peer_id,
            clock.latest() == (Timestamp { physical: now, logical: 0, peer_id }),
    {
        HybridLogicalClock { peer_id, latest: Timestamp::new(now, 0, peer_id) }
    }

    /// A clock for `peer_id` whose last timestamp was `latest`: as restored
    /// from where it was written down, so that it goes on from there.
    pub fn restore(peer_id: PeerId, latest: Timestamp) -> (clock: Self)
        ensures
            clock.peer() == peer_id,
            clock.latest() == latest,
    {
        HybridLogicalClock { peer_id, latest }
    }

    /// The peer whose events this clock stamps.
    pub fn peer_id(&self) -> (peer_id: PeerId)
        ensures
            peer_id == self.peer(),
    {
        self.peer_id
    }

    /// Stamps a local event, reading the wall clock.
    ///
    /// Whatever the wall clock reads, the timestamp returned comes strictly
    /// after the one emitted before: it is [`ticked`] at some reading.
    pub fn tick(&mut self) -> (t: Timestamp)
        requires
            old(self).latest().logical < u64::MAX,
        ensures
            final(self).peer() == old(self).peer(),
            final(self).latest() == t,
            old(self).latest().precedes(t),
            exists|now: u64| t == ticked(old(self).peer(), old(self).latest(), now),
    {
        let now = wall_clock_millis();
        self.tick_at(now)
    }

    /// Stamps a local event when the wall clock reads `now`: if physical time
    /// has moved past the last timestamp, the new one is `(now, 0, peer)`,
    /// else it keeps the physical time of the last one and raises its
    /// logical counter by one.
    pub fn tick_at(&mut self, now: u64) -> (t: Timestamp)
        requires
            now > old(self).latest().physical || old(self).latest().logical < u64::MAX,
        ensures
            final(self).peer() == old(self).peer(),
            final(self).latest() == t,
            t == ticked(old(self).peer(), old(self).latest(), now),
            old(self).latest().precedes(t),
    {
        if now > self.latest.physical {
            self.latest = Timestamp::new(now, 0, self.peer_id);
        } else {
            self.latest = Timestamp::new(self.latest.physical, self.latest.logical + 1, self.peer_id);
        }
        self.latest
    }

    /// Brings the clock past a timestamp received from another peer, reading
    /// the wall clock.
    ///
    /// Whatever the wall clock reads, the timestamp returned comes strictly
    /// after both `remote` and the one emitted before: it is [`updated`] at
    /// some reading.
    pub fn update(&mut self, remote: Timestamp) -> (t: Timestamp)
        requires
            old(self).latest().logical < u64::MAX,
            remote.logical < u64::MAX,
        ensures
            final(self).peer() == old(self).peer(),
            final(self).latest() == t,
            old(self).latest().precedes(t),
            remote.precedes(t),
            exists|now: u64| t == updated(old(self).peer(), old(self).latest(), remote, now),
    {
        let now = wall_clock_millis();
        self.update_at(remote, now)
    }

    /// Brings the clock past `remote` when the wall clock reads `now`.
    ///
    /// The new physical time is the greatest of `now`, the clock's own and
    /// the remote one. The logical counter restarts at zero if `now` is past
    /// both others; else it is one more than that of the side whose physical
    /// time prevails, or than the greater of the two where they agree.
    pub fn update_at(&mut self, remote: Timestamp, now: u64) -> (t: Timestamp)
        requires
            merged_logical(old(self).latest(), remote, now) <= u64::MAX,
        ensures
            final(self).peer() == old(self).peer(),
            final(self).latest() == t,
            t == updated(old(self).peer(), old(self).latest(), remote, now),
            old(self).latest().precedes(t),
            remote.precedes(t),
    {
        let local = self.latest;
        let floor: u64 = if local.physical >= remote.physical {
            local.physical
        } else {
            remote.physical
        };
        let new_physical: u64 = if now >= floor {
            now
        } else {
            floor
        };
        let new_logical: u64 = if new_physical > floor {
            0
        } else if local.physical == remote.physical {
            if local.logical >= remote.logical {
                local.logical + 1
            } else {
                remote.logical + 1
            }
        } else if local.physical > remote.physical {
            local.logical + 1
        } else {
            remote.logical + 1
        };
        self.latest = Timestamp::new(new_physical, new_logical, self.peer_id);
        self.latest
    }

    /// The last timestamp this clock emitted.
    #[verifier::when_used_as_spec(spec_latest)]
    pub fn latest(&self) -> (t: Timestamp)
        ensures
            t == self.latest(),
    {
        self.latest
    }
}

/// Two ticks of one clock, at whatever wall-clock readings, give timestamps
/// of which the second comes strictly after the first.
pub proof fn lemma_ticks_increase(peer: PeerId, latest: Timestamp, now1: u64, now2: u64)
    requires
        latest.logical + 2 <= u64::MAX,
    ensures
        ({
            let t1 = ticked(peer, latest, now1);
            let t2 = ticked(peer, t1, now2);
            latest.precedes(t1) && t1.precedes(t2)
        }),
{
}

/// An update gives a timestamp that comes strictly after both the remote
/// timestamp and the one the clock emitted before.
pub proof fn lemma_update_dominates(peer: PeerId, latest: Timestamp, remote: Timestamp, now: u64)
    requires
        merged_logical(latest, remote, now) <= u64::MAX,
    ensures
        latest.precedes(updated(peer, latest, remote, now)),
        remote.precedes(updated(peer, latest, remote, now)),
{
}

} // verus!
