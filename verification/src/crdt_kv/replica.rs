//! Replica identity, version stamps and the logical clock.
use vstd::prelude::*;

verus! {

/// Identity of one replica of the store.
#[derive(Debug, Clone, Copy, PartialEq, Eq, Structural, PartialOrd, Ord, Hash)]
pub struct ReplicaId {
    pub bits: u128,
}

/// The bits of a random identifier, a UUID of version 4: the version stands in
/// four of them and the variant in two. All others are free.
pub open spec fn is_random_id(bits: u128) -> bool {
    &&& (bits >> 76) & 0xf == 4
    &&& (bits >> 62) & 0x3 == 2
}

/// `uuid::Uuid::new_v4` draws a random identifier, and `Uuid::as_u128` gives its
/// bytes as one number, the first byte in the highest bits. The version and the
/// variant are those of a random UUID. Nothing is claimed of the other bits: two
/// draws can be equal.
#[verifier::external_body]
fn random_bits() -> (bits: u128)
    ensures
        is_random_id(bits),
{
    uuid::Uuid::new_v4().as_u128()
}

impl ReplicaId {
    /// A fresh random identity. Which one is left to chance.
    pub fn new() -> (r: Self)
        ensures
            is_random_id(r.bits),
    {
        ReplicaId { bits: random_bits() }
    }

    /// The identity with the given bits.
    pub fn from_bits(bits: u128) -> (r: Self)
        ensures
            r.bits == bits,
    {
        ReplicaId { bits }
    }
}

/// The stamp of an operation: when it was issued and by whom.
#[derive(Debug, Clone, Copy, PartialEq, Eq, Structural, PartialOrd, Ord, Hash)]
pub struct Version {
    pub timestamp: u64,
    pub replica_id: ReplicaId,
}

impl Version {
    /// Stamps are ordered by timestamp, and by replica where timestamps tie.
    pub open spec fn before(self, other: Version) -> bool {
        ||| self.timestamp < other.timestamp
        ||| (self.timestamp == other.timestamp && self.replica_id.bits < other.replica_id.bits)
    }

    /// The stamp for an operation of `replica_id` at `timestamp`.
    pub fn new(timestamp: u64, replica_id: ReplicaId) -> (r: Self)
        ensures
            r == (Version { timestamp, replica_id }),
    {
        Version { timestamp, replica_id }
    }

    /// Whether this stamp is older than `other`.
    pub fn is_before(&self, other: &Version) -> (r: bool)
        ensures
            r == self.before(*other),
    {
        self.timestamp < other.timestamp || (self.timestamp == other.timestamp
            && self.replica_id.bits < other.replica_id.bits)
    }
}

/// Logical clock of one node, shared by everything that stamps its operations.
#[derive(Debug, Clone, Copy)]
pub struct LamportClock {
    time: u64,
}

impl View for LamportClock {
    type V = u64;

    closed spec fn view(&self) -> u64 {
        self.time
    }
}

/// The reading after `time`. A clock at its largest reading stays there.
pub open spec fn next_time(time: u64) -> u64 {
    if time < u64::MAX {
        (time + 1) as u64
    } else {
        time
    }
}

/// The reading after a remote timestamp was observed.
pub open spec fn observed_time(time: u64, remote: u64) -> u64 {
    next_time(
        if remote > time {
            remote
        } else {
            time
        },
    )
}

impl LamportClock {
    /// A clock that has not ticked yet.
    pub fn new() -> (r: Self)
        ensures
            r@ == 0,
    {
        LamportClock { time: 0 }
    }

    /// Advance by one and return the new reading.
    pub fn tick(&mut self) -> (r: u64)
        ensures
            final(self)@ == next_time(old(self)@),
            r == final(self)@,
    {
        if self.time < u64::MAX {
            self.time = self.time + 1;
        }
        self.time
    }

    /// Move past a timestamp seen on a remote operation.
    pub fn update(&mut self, remote: u64)
        ensures
            final(self)@ == observed_time(old(self)@, remote),
    {
        if remote > self.time {
            self.time = remote;
        }
        if self.time < u64::MAX {
            self.time = self.time + 1;
        }
    }
}

/// A tick after a remote timestamp was observed is newer than that timestamp,
/// as long as the clock has room left.
pub proof fn law_tick_beats_observed(time: u64, remote: u64)
    requires
        remote < u64::MAX - 1,
        time < u64::MAX - 1,
    ensures
        next_time(observed_time(time, remote)) > remote,
        next_time(observed_time(time, remote)) > next_time(time),
{
}

} // verus!
