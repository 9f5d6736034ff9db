//! Discrete-round simulator for a stake-weighted push/prune epidemic gossip
//! protocol, as used to spread a versioned replicated data set (CRDS) across
//! a validator cluster.
//!
//! Each simulated node owns a CRDS table with versioned upsert semantics, a
//! stake-bucketed push active set that rotates periodically, and a
//! received-packet provenance cache that drives pruning. One call to
//! `run_gossip` is one atomic round: consume inbound packets, send prunes,
//! refresh own entries, and fan pushes out to stake-weighted peers.

use vstd::prelude::*;

pub mod active_set;
pub mod channel;
pub mod crds;
pub mod node;
pub mod received_cache;
pub mod rng;
pub mod router;
pub mod seqops;
pub mod stakes;

verus! {

/// Identifies a cluster member. The external form of a member identity is an
/// opaque 32-byte token; the simulator only compares, orders and looks up
/// identities, so each one is represented by a distinct integer.
pub type NodeId = u64;

/// One slot of the replicated data set, owned by `origin`.
#[derive(Clone, Copy, Debug, PartialEq, Eq, Structural)]
pub struct CrdsKey {
    pub origin: NodeId,
    pub index: usize,
}

/// Version state of one slot: a monotonically nondecreasing `ordinal` and a
/// saturating count of how often the current ordinal was re-received.
#[derive(Clone, Copy, Debug, PartialEq, Eq, Structural)]
pub struct CrdsEntry {
    pub ordinal: u64,
    pub num_dups: u8,
}

impl CrdsEntry {
    pub fn ordinal(&self) -> (r: u64)
        ensures
            r == self.ordinal,
    {
        self.ordinal
    }

    pub fn num_dups(&self) -> (r: u8)
        ensures
            r == self.num_dups,
    {
        self.num_dups
    }
}

/// A gossip message: either an unsolicited push of one versioned slot, or a
/// request to stop forwarding values minted by the listed origins.
#[derive(Clone, Debug, PartialEq, Eq)]
pub enum Packet {
    Push { from: NodeId, key: CrdsKey, ordinal: u64 },
    Prune { from: NodeId, origins: Vec<NodeId> },
}

/// Why an incoming `(key, ordinal)` did not advance the table.
#[derive(Clone, Copy, Debug, PartialEq, Eq, Structural)]
pub enum UpsertError {
    /// The table already holds a strictly newer ordinal for the key.
    Outdated,
    /// The table holds exactly this ordinal; payload is the updated
    /// (saturating) duplicate count.
    Duplicate(u8),
}

/// Whether the association list `s` has an entry under key `k`.
pub open spec fn assoc_has<K, T>(s: Seq<(K, T)>, k: K) -> bool {
    exists|i: int| 0 <= i < s.len() && s[i].0 == k
}

/// Index of the entry of `s` under key `k` (meaningful when the keys of
/// `s` are distinct and `assoc_has(s, k)` holds).
pub open spec fn assoc_idx<K, T>(s: Seq<(K, T)>, k: K) -> int {
    choose|i: int| 0 <= i < s.len() && s[i].0 == k
}

/// When the keys of `s` are distinct, the entry seen at index `i` is the one
/// `assoc_idx` names.
pub proof fn lemma_assoc_at<K, T>(s: Seq<(K, T)>, k: K, i: int)
    requires
        0 <= i < s.len(),
        s[i].0 == k,
        forall|a: int, b: int| 0 <= a < b < s.len() ==> (#[trigger] s[a]).0 != (#[trigger] s[b]).0,
    ensures
        assoc_has(s, k),
        assoc_idx(s, k) == i,
{
    assert(assoc_has(s, k));
    let j = assoc_idx(s, k);
    assert(s[j].0 == k);
}

/// A key matched at no index is absent.
pub proof fn lemma_assoc_none<K, T>(s: Seq<(K, T)>, k: K)
    requires
        forall|i: int| 0 <= i < s.len() ==> (#[trigger] s[i]).0 != k,
    ensures
        !assoc_has(s, k),
{
    if assoc_has(s, k) {
        let i = assoc_idx(s, k);
        assert(s[i].0 == k);
    }
}

/// Unrecoverable routing failures surfaced from a gossip round.
#[derive(Clone, Copy, Debug, PartialEq, Eq, Structural)]
pub enum Error {
    /// The router has no channel for the destination.
    UnknownDestination(NodeId),
    /// The destination's inbound channel is closed.
    ChannelClosed(NodeId),
}

} // verus!
