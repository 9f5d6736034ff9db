//! One simulated cluster member: its CRDS table, push active set and
//! received-packet cache, and the per-round gossip algorithm that consumes
//! inbound packets, sends prunes, refreshes its own entries and fans pushes
//! out to stake-weighted peers.

use crate::active_set::{bucket_count, peer_ids, prune_model, PushActiveSet, NUM_BUCKETS};
use crate::channel::drain_packets;
use crate::crds::{lemma_upsert_monotonic, upsert_model, CrdsTable};
use crate::received_cache::{prune_spec, record_model, ReceivedCache, PeerStats};
use crate::router::Router;
use crate::rng::rng_below;
use crate::seqops::{group_of, group_pairs, sort_triples};
use crate::stakes::{sat_add64, sat_sum, stake_of, Stakes};
use crate::{assoc_has, assoc_idx, lemma_assoc_at, CrdsEntry, CrdsKey, Error, NodeId, Packet, UpsertError};
use vstd::prelude::*;

verus! {

/// Recommended bound on distinct origins tracked by the received cache.
pub const CRDS_UNIQUE_PUBKEY_CAPACITY: usize = 8192;

/// Share of total active stake kept when selecting prune targets, in percent.
pub const CRDS_GOSSIP_PRUNE_STAKE_THRESHOLD_PCT: u64 = 15;

/// A nonnegative rate with three decimal places: `whole + permille/1000`.
/// Sampling it yields `whole`, plus one more with probability
/// `permille/1000`.
#[derive(Clone, Copy, Debug, PartialEq, Eq, Structural)]
pub struct Rate {
    pub whole: u32,
    pub permille: u32,
}

impl Rate {
    /// The fraction is a true per-mille value, and the whole part is small
    /// enough that three times it (the active-set size drawn per bucket)
    /// still fits the machine's word.
    pub open spec fn wf(&self) -> bool {
        self.permille < 1000 && 3 * (self.whole as int) <= usize::MAX as int
    }
}

/// Draws `rate.whole`, plus one with probability `rate.permille / 1000`.
pub fn sample_rate(rng: &mut rand::rngs::StdRng, rate: Rate) -> (r: usize)
    requires
        rate.wf(),
    ensures
        rate.whole <= r <= rate.whole + 1,
        rate.permille == 0 ==> r == rate.whole,
{
    let draw = rng_below(rng, 1000);
    if draw < rate.permille as usize {
        rate.whole as usize + 1
    } else {
        rate.whole as usize
    }
}

/// All tunables of the simulation. Fractional rates carry three decimal
/// places; durations are in milliseconds and are bookkeeping only.
#[derive(Clone, Copy, Debug)]
pub struct Config {
    /// Per-key fan-out for relayed keys.
    pub gossip_push_fanout: Rate,
    /// Per-key fan-out for keys the node itself originated.
    pub gossip_push_wide_fanout: Rate,
    /// Rebuild the push active set every this many rounds, starting at round 1.
    pub rotate_active_set_rounds: usize,
    /// Minimum peers kept per origin when proposing prunes.
    pub gossip_prune_min_ingress_nodes: usize,
    /// Upper bound per round on push packets. A driver hint: the round
    /// itself leaves it unenforced.
    pub gossip_push_capacity: usize,
    /// Router-level loss probability, in thousandths.
    pub packet_drop_permille: u32,
    /// Slots per node.
    pub num_crds: usize,
    /// Expected own-entry refreshes per round.
    pub refresh_rate: Rate,
    /// Worker parallelism (driver concern).
    pub num_threads: usize,
    /// Simulation wall-clock bound, in milliseconds (driver concern).
    pub run_duration_millis: u64,
    /// Rounds before stats collection begins (driver concern).
    pub warm_up_rounds: usize,
}

impl Config {
    pub open spec fn wf(&self) -> bool {
        &&& self.gossip_push_fanout.wf()
        &&& self.gossip_push_wide_fanout.wf()
        &&& self.refresh_rate.wf()
        &&& self.rotate_active_set_rounds >= 1
        &&& self.num_crds >= 1
        &&& self.packet_drop_permille <= 1000
    }
}

/// Per-round metrics of `consume_packets`.
pub struct ConsumeOutput {
    /// The keys whose table entry was freshly inserted or advanced, without
    /// duplicates, in first-upsert order.
    pub keys: Vec<CrdsKey>,
    pub num_packets: usize,
    pub num_prunes: usize,
    pub num_outdated: usize,
    pub num_duplicates: usize,
}

/// The mathematical state a packet batch acts on: the CRDS table, the
/// received cache, the active set, and the running metrics.
pub struct ConsumeModel {
    pub table: Map<CrdsKey, CrdsEntry>,
    pub cache: Seq<(NodeId, Seq<(NodeId, PeerStats)>)>,
    pub active: Seq<(NodeId, Seq<NodeId>)>,
    pub upserted: Seq<CrdsKey>,
    pub num_prunes: int,
    pub num_outdated: int,
    pub num_duplicates: int,
}

/// One packet applied to the model: a `Push` goes through the table's upsert
/// semantics and is recorded in the received cache with its duplicate weight
/// (0 when accepted, the duplicate count when repeated, the maximum when
/// outdated); a `Prune` is applied to the active set.
pub open spec fn consume_step(m: ConsumeModel, cap: int, p: Packet) -> ConsumeModel {
    match p {
        Packet::Push { from, key, ordinal } => {
            let up = upsert_model(m.table, key, ordinal);
            match up.1 {
                Ok(()) => ConsumeModel {
                    table: up.0,
                    cache: record_model(m.cache, key.origin, from, 0, cap),
                    upserted: if m.upserted.contains(key) {
                        m.upserted
                    } else {
                        m.upserted.push(key)
                    },
                    ..m
                },
                Err(UpsertError::Duplicate(d)) => ConsumeModel {
                    table: up.0,
                    cache: record_model(m.cache, key.origin, from, d as u64, cap),
                    num_duplicates: m.num_duplicates + 1,
                    ..m
                },
                Err(UpsertError::Outdated) => ConsumeModel {
                    cache: record_model(m.cache, key.origin, from, u64::MAX, cap),
                    num_outdated: m.num_outdated + 1,
                    ..m
                },
            }
        },
        Packet::Prune { from, origins } => ConsumeModel {
            active: prune_model(m.active, from, origins@),
            num_prunes: m.num_prunes + 1,
            ..m
        },
    }
}

/// A packet batch applied in order.
pub open spec fn consume_fold(m: ConsumeModel, cap: int, ps: Seq<Packet>) -> ConsumeModel
    decreases ps.len(),
{
    if ps.len() == 0 {
        m
    } else {
        consume_step(consume_fold(m, cap, ps.drop_last()), cap, ps.last())
    }
}

/// The table component of a packet batch: only pushes touch it.
pub open spec fn apply_pushes(t: Map<CrdsKey, CrdsEntry>, ps: Seq<Packet>) -> Map<
    CrdsKey,
    CrdsEntry,
>
    decreases ps.len(),
{
    if ps.len() == 0 {
        t
    } else {
        let t2 = apply_pushes(t, ps.drop_last());
        match ps.last() {
            Packet::Push { from, key, ordinal } => upsert_model(t2, key, ordinal).0,
            Packet::Prune { from, origins } => t2,
        }
    }
}

/// Consuming packets transforms the table exactly as the push sub-sequence
/// does, whatever the cache and active set looked like.
pub proof fn lemma_consume_table(m: ConsumeModel, cap: int, ps: Seq<Packet>)
    ensures
        consume_fold(m, cap, ps).table == apply_pushes(m.table, ps),
    decreases ps.len(),
{
    if ps.len() > 0 {
        lemma_consume_table(m, cap, ps.drop_last());
    }
}

/// Consuming packets never drops a table key and never lowers an ordinal:
/// ordinal monotonicity under every packet batch.
pub proof fn lemma_apply_pushes_monotonic(t: Map<CrdsKey, CrdsEntry>, ps: Seq<Packet>)
    ensures
        forall|k: CrdsKey|
            t.contains_key(k) ==> #[trigger] apply_pushes(t, ps).contains_key(k),
        forall|k: CrdsKey|
            t.contains_key(k) ==> (#[trigger] apply_pushes(t, ps)[k]).ordinal >= t[k].ordinal,
    decreases ps.len(),
{
    if ps.len() > 0 {
        lemma_apply_pushes_monotonic(t, ps.drop_last());
        let t2 = apply_pushes(t, ps.drop_last());
        let tn = apply_pushes(t, ps);
        match ps.last() {
            Packet::Push { from, key, ordinal } => {
                lemma_upsert_monotonic(t2, key, ordinal);
            },
            Packet::Prune { .. } => {},
        }
        assert forall|k: CrdsKey|
            t.contains_key(k) implies #[trigger] apply_pushes(t, ps).contains_key(k) && (
        apply_pushes(t, ps)[k]).ordinal >= t[k].ordinal by {
            assert(tn == apply_pushes(t, ps));
            assert(t2.contains_key(k) && (#[trigger] apply_pushes(t, ps.drop_last())[k]).ordinal
                >= t[k].ordinal);
            match ps.last() {
                Packet::Push { from, key, ordinal } => {
                    assert(tn == upsert_model(t2, key, ordinal).0);
                    assert(tn.contains_key(k) && (#[trigger] upsert_model(
                        t2,
                        key,
                        ordinal,
                    ).0[k]).ordinal >= t2[k].ordinal);
                },
                Packet::Prune { .. } => {
                    assert(tn == t2);
                },
            }
        }
    } else {
        assert(apply_pushes(t, ps) == t);
    }
}

/// Consuming packets can only ever copy an ordinal that arrived in one of
/// the packets: for every key, the resulting entry is either the old one or
/// carries an ordinal some `Push` in the batch proposed for that key.
pub proof fn lemma_apply_pushes_copies(t: Map<CrdsKey, CrdsEntry>, ps: Seq<Packet>)
    ensures
        forall|k: CrdsKey|
            #[trigger] apply_pushes(t, ps).contains_key(k) ==> (t.contains_key(k) && apply_pushes(
                t,
                ps,
            )[k].ordinal == t[k].ordinal) || exists|i: int|
                0 <= i < ps.len() && ((#[trigger] ps[i]) matches Packet::Push { from, key, ordinal }
                    && key == k && ordinal == apply_pushes(t, ps)[k].ordinal),
    decreases ps.len(),
{
    if ps.len() > 0 {
        lemma_apply_pushes_copies(t, ps.drop_last());
        let t2 = apply_pushes(t, ps.drop_last());
        let tn = apply_pushes(t, ps);
        assert forall|k: CrdsKey| #[trigger] tn.contains_key(k) implies (t.contains_key(k)
            && tn[k].ordinal == t[k].ordinal) || exists|i: int|
            0 <= i < ps.len() && ((#[trigger] ps[i]) matches Packet::Push { from, key, ordinal }
                && key == k && ordinal == tn[k].ordinal) by {
            match ps.last() {
                Packet::Push { from, key, ordinal } => {
                    if k == key && tn[k].ordinal == ordinal {
                        assert((ps[ps.len() - 1] matches Packet::Push {
                            from: f2,
                            key: k2,
                            ordinal: o2,
                        } && k2 == k && o2 == tn[k].ordinal));
                    } else {
                        assert(tn[k].ordinal == t2[k].ordinal && t2.contains_key(k));
                        if !(t.contains_key(k) && t2[k].ordinal == t[k].ordinal) {
                            let i = choose|i: int|
                                0 <= i < ps.drop_last().len() && ((
                                #[trigger] ps.drop_last()[i]) matches Packet::Push {
                                    from,
                                    key,
                                    ordinal,
                                } && key == k && ordinal == t2[k].ordinal);
                            assert(ps[i] == ps.drop_last()[i]);
                        }
                    }
                },
                Packet::Prune { .. } => {
                    if !(t.contains_key(k) && t2[k].ordinal == t[k].ordinal) {
                        let i = choose|i: int|
                            0 <= i < ps.drop_last().len() && ((
                            #[trigger] ps.drop_last()[i]) matches Packet::Push {
                                from,
                                key,
                                ordinal,
                            } && key == k && ordinal == t2[k].ordinal);
                        assert(ps[i] == ps.drop_last()[i]);
                    }
                },
            }
        }
    }
}

/// Own-ordinal ownership, seen from one node: over a whole round — any
/// packet batch consumed, then any batch of own keys refreshed — the entry of
/// a key some other node originated is either the old entry's ordinal or a
/// copy of an ordinal that arrived in a `Push` for that key. Only the
/// refreshes, which touch own keys alone, ever mint a new ordinal.
pub proof fn lemma_remote_ordinals_are_copies(
    t: Map<CrdsKey, CrdsEntry>,
    ps: Seq<Packet>,
    ks: Seq<CrdsKey>,
    self_id: NodeId,
)
    requires
        forall|q: int| 0 <= q < ks.len() ==> (#[trigger] ks[q]).origin == self_id,
    ensures
        forall|k: CrdsKey|
            k.origin != self_id && #[trigger] refresh_fold(apply_pushes(t, ps), ks).contains_key(k)
                ==> (t.contains_key(k) && refresh_fold(apply_pushes(t, ps), ks)[k].ordinal
                == t[k].ordinal) || exists|i: int|
                0 <= i < ps.len() && ((#[trigger] ps[i]) matches Packet::Push { from, key, ordinal }
                    && key == k && ordinal == refresh_fold(apply_pushes(t, ps), ks)[k].ordinal),
{
    lemma_apply_pushes_copies(t, ps);
    lemma_refresh_untouched(apply_pushes(t, ps), ks);
    assert forall|k: CrdsKey|
        k.origin != self_id && #[trigger] refresh_fold(apply_pushes(t, ps), ks).contains_key(
            k,
        ) implies (t.contains_key(k) && refresh_fold(apply_pushes(t, ps), ks)[k].ordinal
        == t[k].ordinal) || exists|i: int|
        0 <= i < ps.len() && ((#[trigger] ps[i]) matches Packet::Push { from, key, ordinal }
            && key == k && ordinal == refresh_fold(apply_pushes(t, ps), ks)[k].ordinal) by {
        if ks.contains(k) {
            let q = choose|q: int| 0 <= q < ks.len() && ks[q] == k;
            assert(false);
        }
        assert(refresh_fold(apply_pushes(t, ps), ks)[k] == apply_pushes(t, ps)[k]);
        assert(apply_pushes(t, ps).contains_key(k));
    }
}

/// The prune proposals for a batch of origins, flattened in order: each
/// origin contributes one `(peer, origin)` pair per peer that
/// `ReceivedCache::prune` proposes for it.
pub open spec fn prune_pairs(
    rows: Seq<(NodeId, Seq<(NodeId, PeerStats)>)>,
    self_id: NodeId,
    pct: u64,
    min_ingress: int,
    total: u64,
    m: Map<NodeId, u64>,
    origins: Seq<NodeId>,
) -> Seq<(NodeId, NodeId)>
    decreases origins.len(),
{
    if origins.len() == 0 {
        Seq::empty()
    } else {
        prune_pairs(rows, self_id, pct, min_ingress, total, m, origins.drop_last()) + prune_spec(
            rows,
            self_id,
            origins.last(),
            pct,
            min_ingress,
            total,
            m,
        ).map_values(|p: NodeId| (p, origins.last()))
    }
}

/// The candidate pool a rotation draws from: every staked member and every
/// origin observed in the table, the node itself excluded, without
/// duplicates.
pub open spec fn rotation_pool(
    cands: Seq<NodeId>,
    pk: NodeId,
    table: Map<CrdsKey, CrdsEntry>,
    m: Map<NodeId, u64>,
) -> bool {
    &&& forall|a: int, b: int| 0 <= a < b < cands.len() ==> cands[a] != cands[b]
    &&& forall|cd: NodeId|
        #[trigger] cands.contains(cd) <==> (cd != pk && (m.contains_key(cd) || exists|k: CrdsKey|
            #[trigger] table.contains_key(k) && k.origin == cd))
}

/// What a rotation establishes: the active peers were drawn from the
/// candidate pool (every staked member and every table origin, the node
/// itself excluded), with per-bucket counts of exactly the smaller of the
/// per-bucket draw and the bucket's candidate population.
pub open spec fn rotated_outcome(
    active_ids: Seq<NodeId>,
    pk: NodeId,
    table: Map<CrdsKey, CrdsEntry>,
    m: Map<NodeId, u64>,
    spb: int,
) -> bool {
    exists|cands: Seq<NodeId>|
        #[trigger] rotation_pool(cands, pk, table, m) && bucket_selection(
            active_ids,
            cands,
            m,
            spb,
        )
}

/// Per stake bucket, the active peers number exactly the smaller of the
/// per-bucket draw and the bucket's candidate population.
pub open spec fn bucket_selection(
    active_ids: Seq<NodeId>,
    cands: Seq<NodeId>,
    m: Map<NodeId, u64>,
    spb: int,
) -> bool {
    forall|b: int|
        0 <= b < NUM_BUCKETS ==> #[trigger] bucket_count(active_ids, m, b) == (if spb
            <= bucket_count(cands, m, b) {
            spb
        } else {
            bucket_count(cands, m, b)
        })
}

/// Consuming packets never changes which peers are in the active set: a
/// `Prune` only grows one peer's pruned-origins record.
pub proof fn lemma_consume_peers(m: ConsumeModel, cap: int, ps: Seq<Packet>)
    ensures
        peer_ids(consume_fold(m, cap, ps).active) == peer_ids(m.active),
    decreases ps.len(),
{
    if ps.len() > 0 {
        lemma_consume_peers(m, cap, ps.drop_last());
        let prev = consume_fold(m, cap, ps.drop_last());
        match ps.last() {
            Packet::Prune { from, origins } => {
                assert(peer_ids(prune_model(prev.active, from, origins@)) =~= peer_ids(
                    prev.active,
                ));
            },
            Packet::Push { .. } => {},
        }
    }
}

} // verus!

verus! {

/// One simulated cluster member.
pub struct Node {
    num_gossip_rounds: usize,
    pubkey: NodeId,
    stake: u64,
    table: CrdsTable,
    active_set: PushActiveSet,
    received_cache: ReceivedCache,
    receiver: crossbeam_channel::Receiver<Packet>,
}

impl Node {
    pub closed spec fn spec_pubkey(&self) -> NodeId {
        self.pubkey
    }

    pub closed spec fn spec_stake(&self) -> u64 {
        self.stake
    }

    pub closed spec fn spec_rounds(&self) -> usize {
        self.num_gossip_rounds
    }

    pub closed spec fn spec_table(&self) -> Map<CrdsKey, CrdsEntry> {
        self.table@
    }

    pub closed spec fn spec_cache(&self) -> Seq<(NodeId, Seq<(NodeId, PeerStats)>)> {
        self.received_cache.rows_seq()
    }

    pub closed spec fn spec_active(&self) -> Seq<(NodeId, Seq<NodeId>)> {
        self.active_set.peers_seq()
    }

    pub closed spec fn spec_cache_cap(&self) -> int {
        self.received_cache.cap()
    }

    pub closed spec fn wf(&self) -> bool {
        self.table.wf() && self.active_set.wf() && self.received_cache.wf()
    }

    /// The node state as the packet-consumption model sees it, with zeroed
    /// metrics.
    pub open spec fn consume_view(&self) -> ConsumeModel {
        ConsumeModel {
            table: self.spec_table(),
            cache: self.spec_cache(),
            active: self.spec_active(),
            upserted: Seq::empty(),
            num_prunes: 0,
            num_outdated: 0,
            num_duplicates: 0,
        }
    }

    /// Builds one node with an empty table, empty active set and fresh
    /// received cache, owning the given inbound channel end.
    pub fn new(
        pubkey: NodeId,
        stake: u64,
        receiver: crossbeam_channel::Receiver<Packet>,
    ) -> (n: Node)
        ensures
            n.wf(),
            n.spec_pubkey() == pubkey,
            n.spec_stake() == stake,
            n.spec_rounds() == 0,
            n.spec_table() == Map::<CrdsKey, CrdsEntry>::empty(),
            n.spec_active() == Seq::<(NodeId, Seq<NodeId>)>::empty(),
            n.spec_cache() == Seq::<(NodeId, Seq<(NodeId, PeerStats)>)>::empty(),
            n.spec_cache_cap() == 2 * CRDS_UNIQUE_PUBKEY_CAPACITY,
    {
        Node {
            num_gossip_rounds: 0,
            pubkey,
            stake,
            table: CrdsTable::new(),
            active_set: PushActiveSet::new(),
            received_cache: ReceivedCache::new(2 * CRDS_UNIQUE_PUBKEY_CAPACITY),
            receiver,
        }
    }

    pub fn stake(&self) -> (r: u64)
        ensures
            r == self.spec_stake(),
    {
        self.stake
    }

    pub fn pubkey(&self) -> (r: NodeId)
        ensures
            r == self.spec_pubkey(),
    {
        self.pubkey
    }

    pub fn num_gossip_rounds(&self) -> (r: usize)
        ensures
            r == self.spec_rounds(),
    {
        self.num_gossip_rounds
    }

    pub fn table(&self) -> (r: &CrdsTable)
        ensures
            r@ == self.spec_table(),
            self.wf() ==> r.wf(),
    {
        &self.table
    }

    pub fn active_set(&self) -> (r: &PushActiveSet)
        ensures
            r.peers_seq() == self.spec_active(),
            self.wf() ==> r.wf(),
    {
        &self.active_set
    }

    pub fn received_cache(&self) -> (r: &ReceivedCache)
        ensures
            r.rows_seq() == self.spec_cache(),
            self.wf() ==> r.wf(),
    {
        &self.received_cache
    }

    /// Applies one incoming `(key, ordinal)` to the CRDS table.
    pub fn upsert(&mut self, key: CrdsKey, ordinal: u64) -> (r: Result<(), UpsertError>)
        requires
            old(self).wf(),
        ensures
            final(self).wf(),
            (final(self).spec_table(), r) == upsert_model(old(self).spec_table(), key, ordinal),
            final(self).spec_pubkey() == old(self).spec_pubkey(),
            final(self).spec_stake() == old(self).spec_stake(),
            final(self).spec_rounds() == old(self).spec_rounds(),
            final(self).spec_cache() == old(self).spec_cache(),
            final(self).spec_active() == old(self).spec_active(),
            final(self).spec_cache_cap() == old(self).spec_cache_cap(),
    {
        self.table.upsert(key, ordinal)
    }

    /// Applies a batch of packets in order: pushes go through the table's
    /// upsert semantics and are recorded in the received cache; prunes mark
    /// the active set. Returns the freshly upserted keys (no duplicates) and
    /// the round metrics.
    pub fn apply_packets(&mut self, packets: Vec<Packet>) -> (out: ConsumeOutput)
        requires
            old(self).wf(),
        ensures
            final(self).wf(),
            final(self).spec_pubkey() == old(self).spec_pubkey(),
            final(self).spec_stake() == old(self).spec_stake(),
            final(self).spec_rounds() == old(self).spec_rounds(),
            final(self).spec_cache_cap() == old(self).spec_cache_cap(),
            ({
                let cm = consume_fold(old(self).consume_view(), old(self).spec_cache_cap(), packets@);
                &&& final(self).spec_table() == cm.table
                &&& final(self).spec_cache() == cm.cache
                &&& final(self).spec_active() == cm.active
                &&& out.keys@ == cm.upserted
                &&& out.num_packets == packets@.len()
                &&& out.num_prunes as int == cm.num_prunes
                &&& out.num_outdated as int == cm.num_outdated
                &&& out.num_duplicates as int == cm.num_duplicates
            }),
    {
        let ghost m0 = old(self).consume_view();
        let ghost cap = old(self).spec_cache_cap();
        let n = packets.len();
        let mut keys: Vec<CrdsKey> = Vec::new();
        let mut num_prunes: usize = 0;
        let mut num_outdated: usize = 0;
        let mut num_duplicates: usize = 0;
        let mut i: usize = 0;
        while i < n
            invariant
                i <= n,
                n == packets@.len(),
                self.wf(),
                self.spec_pubkey() == old(self).spec_pubkey(),
                self.spec_stake() == old(self).spec_stake(),
                self.spec_rounds() == old(self).spec_rounds(),
                self.spec_cache_cap() == old(self).spec_cache_cap(),
                cap == old(self).spec_cache_cap(),
                num_prunes <= i,
                num_outdated <= i,
                num_duplicates <= i,
                ({
                    let cm = consume_fold(m0, cap, packets@.take(i as int));
                    &&& self.spec_table() == cm.table
                    &&& self.spec_cache() == cm.cache
                    &&& self.spec_active() == cm.active
                    &&& keys@ == cm.upserted
                    &&& num_prunes as int == cm.num_prunes
                    &&& num_outdated as int == cm.num_outdated
                    &&& num_duplicates as int == cm.num_duplicates
                }),
            decreases n - i,
        {
            proof {
                assert(packets@.take(i + 1).drop_last() =~= packets@.take(i as int));
                assert(packets@.take(i + 1).last() == packets@[i as int]);
            }
            match &packets[i] {
                Packet::Push { from, key, ordinal } => {
                    let from = *from;
                    let key = *key;
                    let ordinal = *ordinal;
                    match self.table.upsert(key, ordinal) {
                        Ok(()) => {
                            self.received_cache.record(key.origin, from, 0);
                            if !contains_key(&keys, key) {
                                keys.push(key);
                            }
                        },
                        Err(UpsertError::Duplicate(d)) => {
                            self.received_cache.record(key.origin, from, d as u64);
                            num_duplicates += 1;
                        },
                        Err(UpsertError::Outdated) => {
                            self.received_cache.record(key.origin, from, u64::MAX);
                            num_outdated += 1;
                        },
                    }
                },
                Packet::Prune { from, origins } => {
                    num_prunes += 1;
                    self.active_set.prune(*from, origins);
                },
            }
            i += 1;
        }
        proof {
            assert(packets@.take(n as int) =~= packets@);
        }
        ConsumeOutput { keys, num_packets: n, num_prunes, num_outdated, num_duplicates }
    }

    /// Drains the inbound channel without blocking and applies everything
    /// that arrived: the node moves exactly as the consumption model says,
    /// for some packet batch delivered by other nodes.
    pub fn consume_packets(&mut self) -> (out: ConsumeOutput)
        requires
            old(self).wf(),
        ensures
            final(self).wf(),
            final(self).spec_pubkey() == old(self).spec_pubkey(),
            final(self).spec_stake() == old(self).spec_stake(),
            final(self).spec_rounds() == old(self).spec_rounds(),
            final(self).spec_cache_cap() == old(self).spec_cache_cap(),
            exists|ps: Seq<Packet>|
                {
                    let cm = #[trigger] consume_fold(
                        old(self).consume_view(),
                        old(self).spec_cache_cap(),
                        ps,
                    );
                    &&& final(self).spec_table() == cm.table
                    &&& final(self).spec_cache() == cm.cache
                    &&& final(self).spec_active() == cm.active
                    &&& out.keys@ == cm.upserted
                    &&& out.num_packets == ps.len()
                    &&& out.num_prunes as int == cm.num_prunes
                    &&& out.num_outdated as int == cm.num_outdated
                    &&& out.num_duplicates as int == cm.num_duplicates
                },
    {
        let packets = drain_packets(&self.receiver);
        let ghost ps = packets@;
        let out = self.apply_packets(packets);
        proof {
            assert(exists|ps2: Seq<Packet>|
                {
                    let cm = #[trigger] consume_fold(
                        old(self).consume_view(),
                        old(self).spec_cache_cap(),
                        ps2,
                    );
                    &&& final(self).spec_table() == cm.table
                    &&& final(self).spec_cache() == cm.cache
                    &&& final(self).spec_active() == cm.active
                    &&& out.keys@ == cm.upserted
                    &&& out.num_packets == ps2.len()
                    &&& out.num_prunes as int == cm.num_prunes
                    &&& out.num_outdated as int == cm.num_outdated
                    &&& out.num_duplicates as int == cm.num_duplicates
                }) by {
                let cm = consume_fold(old(self).consume_view(), old(self).spec_cache_cap(), ps);
                assert(final(self).spec_table() == cm.table);
            }
        }
        out
    }
}

/// Whether `v` holds `k`.
pub fn contains_key(v: &Vec<CrdsKey>, k: CrdsKey) -> (r: bool)
    ensures
        r == v@.contains(k),
{
    let n = v.len();
    let mut i: usize = 0;
    while i < n
        invariant
            i <= n,
            n == v@.len(),
            forall|q: int| 0 <= q < i ==> v@[q] != k,
        decreases n - i,
    {
        if v[i] == k {
            proof {
                assert(v@[i as int] == k);
            }
            return true;
        }
        i += 1;
    }
    proof {
        if v@.contains(k) {
            let q = choose|q: int| 0 <= q < v@.len() && v@[q] == k;
            assert(false);
        }
    }
    false
}

} // verus!

verus! {

/// One refreshed slot: its ordinal advances by one (saturating at the
/// maximum) and its duplicate count resets; an absent slot starts at
/// ordinal 1.
pub open spec fn refresh_bump(t: Map<CrdsKey, CrdsEntry>, k: CrdsKey) -> Map<CrdsKey, CrdsEntry> {
    let o = if t.contains_key(k) {
        sat_add64(t[k].ordinal, 1)
    } else {
        1u64
    };
    t.insert(k, CrdsEntry { ordinal: o, num_dups: 0 })
}

/// A batch of refreshed slots, in order.
pub open spec fn refresh_fold(t: Map<CrdsKey, CrdsEntry>, keys: Seq<CrdsKey>) -> Map<
    CrdsKey,
    CrdsEntry,
>
    decreases keys.len(),
{
    if keys.len() == 0 {
        t
    } else {
        refresh_bump(refresh_fold(t, keys.drop_last()), keys.last())
    }
}

/// Refreshing never drops a key and never lowers an ordinal.
pub proof fn lemma_refresh_monotonic(t: Map<CrdsKey, CrdsEntry>, keys: Seq<CrdsKey>)
    ensures
        forall|k: CrdsKey|
            t.contains_key(k) ==> #[trigger] refresh_fold(t, keys).contains_key(k),
        forall|k: CrdsKey|
            t.contains_key(k) ==> (#[trigger] refresh_fold(t, keys)[k]).ordinal >= t[k].ordinal,
    decreases keys.len(),
{
    if keys.len() > 0 {
        lemma_refresh_monotonic(t, keys.drop_last());
        let t2 = refresh_fold(t, keys.drop_last());
        assert forall|k: CrdsKey|
            t.contains_key(k) implies #[trigger] refresh_fold(t, keys).contains_key(k) && (
        refresh_fold(t, keys)[k]).ordinal >= t[k].ordinal by {
            assert(t2.contains_key(k) && (#[trigger] refresh_fold(
                t,
                keys.drop_last(),
            )[k]).ordinal >= t[k].ordinal);
            assert(refresh_fold(t, keys) == refresh_bump(t2, keys.last()));
        }
        assert forall|k: CrdsKey| t.contains_key(k) implies (#[trigger] refresh_fold(
            t,
            keys,
        )[k]).ordinal >= t[k].ordinal by {
            assert(refresh_fold(t, keys).contains_key(k));
        }
    }
}

/// Refreshing touches exactly the listed keys: every other slot keeps its
/// entry, present or absent.
pub proof fn lemma_refresh_untouched(t: Map<CrdsKey, CrdsEntry>, keys: Seq<CrdsKey>)
    ensures
        forall|k: CrdsKey|
            !keys.contains(k) ==> #[trigger] refresh_fold(t, keys).contains_key(k)
                == t.contains_key(k) && (t.contains_key(k) ==> refresh_fold(t, keys)[k] == t[k]),
    decreases keys.len(),
{
    if keys.len() > 0 {
        lemma_refresh_untouched(t, keys.drop_last());
        let t2 = refresh_fold(t, keys.drop_last());
        assert forall|k: CrdsKey| !keys.contains(k) implies #[trigger] refresh_fold(
            t,
            keys,
        ).contains_key(k) == t.contains_key(k) && (t.contains_key(k) ==> refresh_fold(t, keys)[k]
            == t[k]) by {
            assert(keys.contains(keys[keys.len() - 1]));
            assert(k != keys.last());
            if keys.drop_last().contains(k) {
                let q = choose|q: int| 0 <= q < keys.drop_last().len() && keys.drop_last()[q] == k;
                assert(keys[q] == k);
            }
            assert(!keys.drop_last().contains(k));
            assert(#[trigger] refresh_fold(t, keys.drop_last()).contains_key(k) == t.contains_key(
                k,
            ) && (t.contains_key(k) ==> refresh_fold(t, keys.drop_last())[k] == t[k]));
            assert(refresh_fold(t, keys) == refresh_bump(t2, keys.last()));
        }
    }
}

impl Node {
    /// Mints fresh own-origin entries: draws the number of refreshes from
    /// the configured rate, then for each one picks a slot uniformly and
    /// advances its ordinal. Returns the refreshed keys, in draw order.
    pub fn refresh_entries(&mut self, rng: &mut rand::rngs::StdRng, config: &Config) -> (r: Vec<
        CrdsKey,
    >)
        requires
            old(self).wf(),
            config.wf(),
        ensures
            final(self).wf(),
            final(self).spec_pubkey() == old(self).spec_pubkey(),
            final(self).spec_stake() == old(self).spec_stake(),
            final(self).spec_rounds() == old(self).spec_rounds(),
            final(self).spec_cache() == old(self).spec_cache(),
            final(self).spec_active() == old(self).spec_active(),
            final(self).spec_cache_cap() == old(self).spec_cache_cap(),
            final(self).spec_table() == refresh_fold(old(self).spec_table(), r@),
            forall|q: int|
                0 <= q < r@.len() ==> (#[trigger] r@[q]).origin == old(self).spec_pubkey()
                    && r@[q].index < config.num_crds,
            config.refresh_rate.whole <= r@.len() <= config.refresh_rate.whole + 1,
            config.refresh_rate.permille == 0 ==> r@.len() == config.refresh_rate.whole,
    {
        let num = sample_rate(rng, config.refresh_rate);
        let mut out: Vec<CrdsKey> = Vec::new();
        let mut t: usize = 0;
        while t < num
            invariant
                t <= num,
                num <= config.refresh_rate.whole + 1,
                config.wf(),
                self.wf(),
                self.spec_pubkey() == old(self).spec_pubkey(),
                self.spec_stake() == old(self).spec_stake(),
                self.spec_rounds() == old(self).spec_rounds(),
                self.spec_cache() == old(self).spec_cache(),
                self.spec_active() == old(self).spec_active(),
                self.spec_cache_cap() == old(self).spec_cache_cap(),
                out@.len() == t,
                self.spec_table() == refresh_fold(old(self).spec_table(), out@),
                forall|q: int|
                    0 <= q < out@.len() ==> (#[trigger] out@[q]).origin == old(self).spec_pubkey()
                        && out@[q].index < config.num_crds,
            decreases num - t,
        {
            let idx = rng_below(rng, config.num_crds);
            let key = CrdsKey { origin: self.pubkey, index: idx };
            let ordinal = match self.table.get(key) {
                Some(e) => {
                    if e.ordinal == u64::MAX {
                        u64::MAX
                    } else {
                        e.ordinal + 1
                    }
                },
                None => 1,
            };
            self.table.set(key, CrdsEntry { ordinal, num_dups: 0 });
            proof {
                assert(out@.push(key).drop_last() =~= out@);
                assert(out@.push(key).last() == key);
            }
            out.push(key);
            t += 1;
        }
        out
    }

    /// Rebuilds the push active set from the candidate pool: every staked
    /// member plus every origin observed in the table, the node itself
    /// excluded.
    pub fn rotate_active_set(
        &mut self,
        rng: &mut rand::rngs::StdRng,
        gossip_push_fanout: usize,
        stakes: &Stakes,
    )
        requires
            old(self).wf(),
            stakes.wf(),
            3 * (gossip_push_fanout as int) <= usize::MAX as int,
        ensures
            final(self).wf(),
            final(self).spec_pubkey() == old(self).spec_pubkey(),
            final(self).spec_stake() == old(self).spec_stake(),
            final(self).spec_rounds() == old(self).spec_rounds(),
            final(self).spec_cache() == old(self).spec_cache(),
            final(self).spec_table() == old(self).spec_table(),
            final(self).spec_cache_cap() == old(self).spec_cache_cap(),
            forall|q: int|
                0 <= q < final(self).spec_active().len() ==> (#[trigger] final(self).spec_active()[q]).1
                    == Seq::<NodeId>::empty() && final(self).spec_active()[q].0 != old(self).spec_pubkey() && (stakes@.contains_key(final(self).spec_active()[q].0) || exists|
                    k: CrdsKey,
                |
                    #[trigger] old(self).spec_table().contains_key(k) && k.origin == final(self).spec_active()[q].0),
            rotated_outcome(
                peer_ids(final(self).spec_active()),
                old(self).spec_pubkey(),
                old(self).spec_table(),
                stakes@,
                3 * (gossip_push_fanout as int),
            ),
    {
        proof {
            stakes.lemma_inv();
            self.table.lemma_inv();
        }
        let mut cands: Vec<NodeId> = Vec::new();
        let sn = stakes.len();
        let mut i: usize = 0;
        while i < sn
            invariant
                i <= sn,
                sn == stakes.entry_seq().len(),
                stakes.wf(),
                forall|a: int, b: int| 0 <= a < b < cands@.len() ==> cands@[a] != cands@[b],
                forall|q: int|
                    0 <= q < cands@.len() ==> (#[trigger] cands@[q]) != self.spec_pubkey()
                        && stakes@.contains_key(cands@[q]),
                forall|i2: int|
                    0 <= i2 < i && (#[trigger] stakes.entry_seq()[i2]).0 != self.spec_pubkey()
                        ==> cands@.contains(stakes.entry_seq()[i2].0),
            decreases sn - i,
        {
            let id = stakes.key_at(i);
            let ghost cprev = cands@;
            if id != self.pubkey {
                if !crate::active_set::contains_id(&cands, id) {
                    proof {
                        stakes.lemma_inv();
                        assert forall|q: int| 0 <= q < cands@.len() implies cands@[q] != id by {
                            assert(cands@.contains(cands@[q]) == true);
                        }
                    }
                    cands.push(id);
                    proof {
                        assert(cands@[cands@.len() - 1] == id);
                    }
                }
                proof {
                    assert(cands@.contains(id));
                }
            }
            proof {
                assert forall|x: NodeId| cprev.contains(x) implies cands@.contains(x) by {
                    let z = choose|z: int| 0 <= z < cprev.len() && cprev[z] == x;
                    assert(cands@[z] == x);
                }
            }
            i += 1;
        }
        let tn = self.table.len();
        let mut j: usize = 0;
        while j < tn
            invariant
                j <= tn,
                tn == self.table.entry_seq().len(),
                self.wf(),
                forall|a: int, b: int| 0 <= a < b < cands@.len() ==> cands@[a] != cands@[b],
                forall|q: int|
                    0 <= q < cands@.len() ==> (#[trigger] cands@[q]) != self.spec_pubkey() && (
                    stakes@.contains_key(cands@[q]) || exists|k: CrdsKey|
                        #[trigger] self.spec_table().contains_key(k) && k.origin == cands@[q]),
                forall|i2: int|
                    0 <= i2 < stakes.entry_seq().len() && (#[trigger] stakes.entry_seq()[i2]).0
                        != self.spec_pubkey() ==> cands@.contains(stakes.entry_seq()[i2].0),
                forall|j2: int|
                    0 <= j2 < j && (#[trigger] self.table.entry_seq()[j2]).0.origin
                        != self.spec_pubkey() ==> cands@.contains(
                        self.table.entry_seq()[j2].0.origin,
                    ),
            decreases tn - j,
        {
            let (key, _entry) = self.table.entry_at(j);
            let o = key.origin;
            let ghost cprev = cands@;
            if o != self.pubkey {
                if !crate::active_set::contains_id(&cands, o) {
                    proof {
                        self.table.lemma_inv();
                        assert(self.spec_table().contains_key(
                            self.table.entry_seq()[j as int].0,
                        ));
                    }
                    cands.push(o);
                    proof {
                        assert(cands@[cands@.len() - 1] == o);
                    }
                }
                proof {
                    assert(cands@.contains(o));
                }
            }
            proof {
                assert forall|x: NodeId| cprev.contains(x) implies cands@.contains(x) by {
                    let z = choose|z: int| 0 <= z < cprev.len() && cprev[z] == x;
                    assert(cands@[z] == x);
                }
            }
            j += 1;
        }
        let size_per_bucket = gossip_push_fanout * 3;
        let ghost cands_g = cands@;
        let ghost pk = self.spec_pubkey();
        let ghost t0 = self.spec_table();
        self.active_set.rotate(rng, size_per_bucket, &cands, stakes);
        proof {
            assert forall|q: int| 0 <= q < self.spec_active().len() implies (
            #[trigger] self.spec_active()[q]).1 == Seq::<NodeId>::empty() && self.spec_active()[q].0
                != pk && (stakes@.contains_key(self.spec_active()[q].0) || exists|k: CrdsKey|
                #[trigger] t0.contains_key(k) && k.origin == self.spec_active()[q].0) by {
                let p = self.spec_active()[q].0;
                assert(cands_g.contains(p));
                let w = choose|w: int| 0 <= w < cands_g.len() && cands_g[w] == p;
            }
            assert forall|cd: NodeId| #[trigger] cands_g.contains(cd) implies (cd != pk && (
            stakes@.contains_key(cd) || exists|k: CrdsKey|
                #[trigger] t0.contains_key(k) && k.origin == cd)) by {
                let z = choose|z: int| 0 <= z < cands_g.len() && cands_g[z] == cd;
            }
            assert forall|cd: NodeId|
                cd != pk && (stakes@.contains_key(cd) || exists|k: CrdsKey|
                    #[trigger] t0.contains_key(k) && k.origin == cd) implies #[trigger] cands_g.contains(
                cd,
            ) by {
                stakes.lemma_inv();
                self.table.lemma_inv();
                if stakes@.contains_key(cd) {
                    let i2 = choose|i2: int|
                        0 <= i2 < stakes.entry_seq().len() && stakes.entry_seq()[i2].0 == cd;
                } else {
                    let k = choose|k: CrdsKey| #[trigger] t0.contains_key(k) && k.origin == cd;
                    let j2 = choose|j2: int|
                        0 <= j2 < self.table.entry_seq().len() && self.table.entry_seq()[j2].0
                            == k;
                }
            }
            assert(rotation_pool(cands_g, pk, t0, stakes@));
            assert(bucket_selection(
                peer_ids(self.spec_active()),
                cands_g,
                stakes@,
                3 * (gossip_push_fanout as int),
            ));
            assert(rotated_outcome(
                peer_ids(self.spec_active()),
                pk,
                t0,
                stakes@,
                3 * (gossip_push_fanout as int),
            ));
        }
    }

    /// The prune proposals for a batch of origins, flattened in order: one
    /// `(peer, origin)` pair for every peer the received cache proposes for
    /// that origin.
    pub open spec fn prune_pairs_of(&self, min_ingress: int, total: u64, m: Map<NodeId, u64>, origins: Seq<NodeId>) -> Seq<(NodeId, NodeId)> {
        prune_pairs(
            self.spec_cache(),
            self.spec_pubkey(),
            CRDS_GOSSIP_PRUNE_STAKE_THRESHOLD_PCT,
            min_ingress,
            total,
            m,
            origins,
        )
    }

    /// Computes this round's prune plan: asks the received cache, per origin,
    /// which peers to prune — always at the protocol's stake threshold and
    /// the configured ingress floor — and groups the proposals by peer, so
    /// that each proposed peer appears exactly once, carrying exactly the
    /// origins whose proposal named it (in origin order).
    #[verifier::loop_isolation(false)]
    pub fn plan_prunes(&self, origins: &Vec<NodeId>, config: &Config, stakes: &Stakes) -> (plan:
        Vec<(NodeId, Vec<NodeId>)>)
        requires
            self.wf(),
            stakes.wf(),
        ensures
            ({
                let pairs = self.prune_pairs_of(
                    config.gossip_prune_min_ingress_nodes as int,
                    sat_sum(stakes.entry_seq()),
                    stakes@,
                    origins@,
                );
                &&& forall|i: int, j: int|
                    0 <= i < j < plan@.len() ==> (#[trigger] plan@[i]).0 != (#[trigger] plan@[j]).0
                &&& forall|i: int|
                    0 <= i < plan@.len() ==> (#[trigger] plan@[i]).1@ == group_of(
                        pairs,
                        plan@[i].0,
                    ) && plan@[i].1@.len() > 0
                &&& forall|k: NodeId|
                    #[trigger] group_of(pairs, k).len() > 0 ==> exists|i: int|
                        0 <= i < plan@.len() && plan@[i].0 == k
            }),
    {
        let ghost min_g = config.gossip_prune_min_ingress_nodes as int;
        let ghost total_g = sat_sum(stakes.entry_seq());
        let mut pairs: Vec<(NodeId, NodeId)> = Vec::new();
        let on = origins.len();
        let mut oi: usize = 0;
        while oi < on
            invariant
                oi <= on,
                pairs@ == self.prune_pairs_of(min_g, total_g, stakes@, origins@.take(oi as int)),
            decreases on - oi,
        {
            proof {
                assert(origins@.take(oi + 1).drop_last() =~= origins@.take(oi as int));
                assert(origins@.take(oi + 1).last() == origins@[oi as int]);
            }
            let origin = origins[oi];
            let peers = self.received_cache.prune(
                self.pubkey,
                origin,
                CRDS_GOSSIP_PRUNE_STAKE_THRESHOLD_PCT,
                config.gossip_prune_min_ingress_nodes,
                stakes,
            );
            let ghost base = pairs@;
            let pn = peers.len();
            let mut pi: usize = 0;
            while pi < pn
                invariant
                    pi <= pn,
                    pairs@ == base + peers@.take(pi as int).map_values(
                        |p: NodeId| (p, origin),
                    ),
                decreases pn - pi,
            {
                proof {
                    assert(peers@.take(pi + 1) =~= peers@.take(pi as int).push(
                        peers@[pi as int],
                    ));
                    assert(peers@.take(pi + 1).map_values(|p: NodeId| (p, origin))
                        =~= peers@.take(pi as int).map_values(|p: NodeId| (p, origin)).push(
                        (peers@[pi as int], origin),
                    ));
                    assert(pairs@.push((peers@[pi as int], origin)) =~= base + peers@.take(
                        pi + 1,
                    ).map_values(|p: NodeId| (p, origin)));
                }
                pairs.push((peers[pi], origin));
                pi += 1;
            }
            proof {
                assert(peers@.take(pn as int) =~= peers@);
            }
            oi += 1;
        }
        proof {
            assert(origins@.take(on as int) =~= origins@);
        }
        group_pairs(pairs)
    }

    /// For each upserted origin, asks the received cache which peers to
    /// prune, groups the proposals by peer, and sends each proposed peer one
    /// `Prune` packet listing all its origins. Stops at the first routing
    /// failure; when no origin yields a proposal (in particular, when there
    /// is no origin at all), nothing is sent and the round part succeeds.
    #[verifier::loop_isolation(false)]
    pub fn send_prunes(
        &self,
        rng: &mut rand::rngs::StdRng,
        origins: &Vec<NodeId>,
        config: &Config,
        stakes: &Stakes,
        router: &Router,
    ) -> (r: Result<(), Error>)
        requires
            self.wf(),
            stakes.wf(),
            router.wf(),
        ensures
            self.prune_pairs_of(
                config.gossip_prune_min_ingress_nodes as int,
                sat_sum(stakes.entry_seq()),
                stakes@,
                origins@,
            ).len() == 0 ==> r == Ok::<(), Error>(()),
            origins@.len() == 0 ==> r == Ok::<(), Error>(()),
    {
        let ghost pairs = self.prune_pairs_of(
            config.gossip_prune_min_ingress_nodes as int,
            sat_sum(stakes.entry_seq()),
            stakes@,
            origins@,
        );
        let mut plan = self.plan_prunes(origins, config, stakes);
        if plan.len() == 0 {
            return Ok(());
        }
        proof {
            // A nonempty plan means some origin's proposal was nonempty.
            if pairs.len() == 0 {
                assert(pairs =~= Seq::<(NodeId, NodeId)>::empty());
                assert(group_of(pairs, plan@[0].0).len() == 0);
                assert(false);
            }
            if origins@.len() == 0 {
                assert(pairs.len() == 0);
            }
        }
        loop
            decreases plan@.len(),
        {
            match plan.pop() {
                Some((peer, os)) => {
                    let packet = Packet::Prune { from: self.pubkey, origins: os };
                    match router.send(rng, peer, packet) {
                        Ok(()) => {},
                        Err(e) => {
                            return Err(e);
                        },
                    }
                },
                None => {
                    break ;
                },
            }
        }
        Ok(())
    }
}

} // verus!

verus! {

/// Extends a duplicate-free key list with more keys, keeping each key once:
/// the result holds exactly the keys of both lists.
pub fn merge_keys(base: Vec<CrdsKey>, extra: &Vec<CrdsKey>) -> (r: Vec<CrdsKey>)
    ensures
        forall|k: CrdsKey| r@.contains(k) <==> base@.contains(k) || extra@.contains(k),
{
    let mut out = base;
    let n = extra.len();
    let mut t: usize = 0;
    while t < n
        invariant
            t <= n,
            n == extra@.len(),
            forall|k: CrdsKey|
                out@.contains(k) <==> base@.contains(k) || extra@.take(t as int).contains(k),
        decreases n - t,
    {
        let x = extra[t];
        let ghost prev = out@;
        let had = contains_key(&out, x);
        if !had {
            out.push(x);
        }
        proof {
            if had {
                assert(out@.contains(x));
            } else {
                assert(out@[out@.len() - 1] == x);
                assert(out@.contains(x));
            }
            assert forall|k: CrdsKey|
                out@.contains(k) <==> base@.contains(k) || extra@.take(t + 1).contains(k) by {
                assert(extra@.take(t + 1) =~= extra@.take(t as int).push(extra@[t as int]));
                if out@.contains(k) {
                    if !prev.contains(k) {
                        let w = choose|w: int| 0 <= w < out@.len() && out@[w] == k;
                        assert(k == x);
                        assert(extra@.take(t + 1).last() == x);
                    } else {
                        if extra@.take(t as int).contains(k) {
                            let w = choose|w: int|
                                0 <= w < extra@.take(t as int).len() && extra@.take(t as int)[w]
                                    == k;
                            assert(extra@.take(t + 1)[w] == k);
                        }
                    }
                } else {
                    assert(!prev.contains(k)) by {
                        if prev.contains(k) {
                            let w = choose|w: int| 0 <= w < prev.len() && prev[w] == k;
                            assert(out@[w] == k);
                        }
                    }
                    if extra@.take(t + 1).contains(k) {
                        let w = choose|w: int|
                            0 <= w < extra@.take(t + 1).len() && (#[trigger] extra@.take(
                                t + 1,
                            )[w]) == k;
                        if w < t as int {
                            assert(extra@.take(t as int)[w] == k);
                        } else {
                            assert(k == x);
                            assert(out@.contains(x));
                        }
                    }
                }
            }
        }
        t += 1;
    }
    proof {
        assert(extra@.take(n as int) =~= extra@);
    }
    out
}

/// Orders keys by their origin's stake, highest first (ties by origin then
/// slot), keeping exactly the given keys.
pub fn sort_keys_by_stake(keys: Vec<CrdsKey>, stakes: &Stakes) -> (r: Vec<CrdsKey>)
    requires
        stakes.wf(),
    ensures
        r@.len() == keys@.len(),
        forall|k: CrdsKey| r@.contains(k) <==> keys@.contains(k),
        forall|a: int, b: int|
            0 <= a < b < r@.len() ==> stake_of(stakes@, (#[trigger] r@[a]).origin) >= stake_of(
                stakes@,
                (#[trigger] r@[b]).origin,
            ),
{
    let n = keys.len();
    let mut trips: Vec<(u64, u64, u64)> = Vec::new();
    let mut i: usize = 0;
    while i < n
        invariant
            i <= n,
            n == keys@.len(),
            stakes.wf(),
            trips@.len() == i,
            forall|q: int|
                0 <= q < i ==> (#[trigger] trips@[q]) == (
                    (u64::MAX - stake_of(stakes@, keys@[q].origin)) as u64,
                    keys@[q].origin,
                    keys@[q].index as u64,
                ),
        decreases n - i,
    {
        let k = keys[i];
        let stake = stakes.get(k.origin);
        trips.push((u64::MAX - stake, k.origin, k.index as u64));
        i += 1;
    }
    let sorted = sort_triples(trips);
    let m = sorted.len();
    let mut out: Vec<CrdsKey> = Vec::new();
    let mut j: usize = 0;
    proof {
        assert forall|q: int|
            0 <= q < sorted@.len() implies (#[trigger] sorted@[q]).2 <= usize::MAX && exists|
            w: int,
        | 0 <= w < keys@.len() && sorted@[q] == (
            (u64::MAX - stake_of(stakes@, (#[trigger] keys@[w]).origin)) as u64,
            keys@[w].origin,
            keys@[w].index as u64,
        ) by {
            assert(sorted@.contains(sorted@[q]));
            assert(trips@.contains(sorted@[q]));
            let w = choose|w: int| 0 <= w < trips@.len() && trips@[w] == sorted@[q];
        }
    }
    while j < m
        invariant
            j <= m,
            m == sorted@.len(),
            stakes.wf(),
            out@.len() == j,
            forall|q: int|
                0 <= q < j ==> (#[trigger] out@[q]) == (CrdsKey {
                    origin: sorted@[q].1,
                    index: sorted@[q].2 as usize,
                }),
            forall|q: int|
                0 <= q < sorted@.len() ==> (#[trigger] sorted@[q]).2 <= usize::MAX && exists|
                    w: int,
                | 0 <= w < keys@.len() && sorted@[q] == (
                    (u64::MAX - stake_of(stakes@, (#[trigger] keys@[w]).origin)) as u64,
                    keys@[w].origin,
                    keys@[w].index as u64,
                ),
        decreases m - j,
    {
        let t = sorted[j];
        out.push(CrdsKey { origin: t.1, index: t.2 as usize });
        j += 1;
    }
    proof {
        assert forall|q: int| 0 <= q < out@.len() implies keys@.contains(#[trigger] out@[q])
            && stake_of(stakes@, out@[q].origin) == u64::MAX - sorted@[q].0 by {
            let w = choose|w: int|
                0 <= w < keys@.len() && sorted@[q] == (
                    (u64::MAX - stake_of(stakes@, (#[trigger] keys@[w]).origin)) as u64,
                    keys@[w].origin,
                    keys@[w].index as u64,
                );
            assert(out@[q] == keys@[w]);
        }
        assert forall|k: CrdsKey| keys@.contains(k) implies out@.contains(k) by {
            let w = choose|w: int| 0 <= w < keys@.len() && keys@[w] == k;
            assert(trips@[w] == (
                (u64::MAX - stake_of(stakes@, k.origin)) as u64,
                k.origin,
                k.index as u64,
            ));
            assert(trips@.contains(trips@[w]));
            assert(sorted@.contains(trips@[w]));
            let q = choose|q: int| 0 <= q < sorted@.len() && sorted@[q] == trips@[w];
            assert(out@[q] == k);
        }
        assert forall|a: int, b: int|
            0 <= a < b < out@.len() implies stake_of(stakes@, (#[trigger] out@[a]).origin)
            >= stake_of(stakes@, (#[trigger] out@[b]).origin) by {
            assert(crate::seqops::triple_le(sorted@[a], sorted@[b]));
            assert(stake_of(stakes@, out@[a].origin) == u64::MAX - sorted@[a].0);
            assert(stake_of(stakes@, out@[b].origin) == u64::MAX - sorted@[b].0);
        }
    }
    out
}

impl Node {
    /// The table's underlying entry list (one entry per key).
    pub closed spec fn spec_table_entries(&self) -> Seq<(CrdsKey, CrdsEntry)> {
        self.table.entry_seq()
    }

    /// Assembles the push packet for one key: the sender is the node itself
    /// and the ordinal is the table's current entry for the key; a key with
    /// no table entry yields nothing.
    pub fn make_push(&self, key: CrdsKey) -> (r: Option<Packet>)
        requires
            self.wf(),
        ensures
            match r {
                Some(p) => self.spec_table().contains_key(key) && p == (Packet::Push {
                    from: self.spec_pubkey(),
                    key,
                    ordinal: self.spec_table()[key].ordinal,
                }),
                None => !self.spec_table().contains_key(key),
            },
    {
        match self.table.get(key) {
            Some(e) => Some(Packet::Push { from: self.pubkey, key, ordinal: e.ordinal }),
            None => None,
        }
    }

    /// One gossip round: advance the round counter, rotate the active set on
    /// cadence, consume the inbound packets, send prunes for the upserted
    /// origins, refresh own entries, and push the touched keys to
    /// stake-weighted peers (never to the node itself), highest origin stake
    /// first. Fails only when the router does.
    ///
    /// Whatever arrived and however the draws went: the round counter
    /// advances by one, every table ordinal is nondecreasing, the active
    /// peers change only in a rotation round, and the new table is exactly
    /// some packet batch applied to the old one followed by own-key
    /// refreshes.
    #[verifier::loop_isolation(false)]
    pub fn run_gossip(
        &mut self,
        rng: &mut rand::rngs::StdRng,
        config: &Config,
        stakes: &Stakes,
        router: &Router,
    ) -> (r: Result<(), Error>)
        requires
            old(self).wf(),
            config.wf(),
            stakes.wf(),
            router.wf(),
            old(self).spec_rounds() < usize::MAX,
        ensures
            final(self).wf(),
            final(self).spec_rounds() == old(self).spec_rounds() + 1,
            final(self).spec_pubkey() == old(self).spec_pubkey(),
            final(self).spec_stake() == old(self).spec_stake(),
            forall|k: CrdsKey|
                old(self).spec_table().contains_key(k) ==> #[trigger] final(self).spec_table().contains_key(k),
            forall|k: CrdsKey|
                old(self).spec_table().contains_key(k) ==> (#[trigger] final(self).spec_table()[k]).ordinal >= old(self).spec_table()[k].ordinal,
            (old(self).spec_rounds() + 1) % (config.rotate_active_set_rounds as int) != 1
                ==> peer_ids(final(self).spec_active()) == peer_ids(old(self).spec_active()),
            exists|ps: Seq<Packet>, ks: Seq<CrdsKey>|
                final(self).spec_table() == #[trigger] refresh_fold(
                    #[trigger] apply_pushes(old(self).spec_table(), ps),
                    ks,
                ) && (forall|q: int|
                    0 <= q < ks.len() ==> (#[trigger] ks[q]).origin == old(self).spec_pubkey()
                        && ks[q].index < config.num_crds),
            (old(self).spec_rounds() + 1) % (config.rotate_active_set_rounds as int) == 1
                ==> rotated_outcome(
                peer_ids(final(self).spec_active()),
                old(self).spec_pubkey(),
                old(self).spec_table(),
                stakes@,
                3 * (config.gossip_push_fanout.whole as int),
            ),
            r matches Err(e) ==> ((e matches Error::UnknownDestination(_)) || (
            e matches Error::ChannelClosed(_))),
    {
        self.num_gossip_rounds += 1;
        let ghost t0 = self.spec_table();
        proof {
            assert(t0 == old(self).spec_table());
        }
        let ghost a0 = self.spec_active();
        let rotated = self.num_gossip_rounds % config.rotate_active_set_rounds == 1;
        let ghost spb_g = 3 * (config.gossip_push_fanout.whole as int);
        if rotated {
            self.rotate_active_set(
                rng,
                config.gossip_push_fanout.whole as usize,
                stakes,
            );
            proof {
                assert(rotated_outcome(
                    peer_ids(self.spec_active()),
                    old(self).spec_pubkey(),
                    old(self).spec_table(),
                    stakes@,
                    spb_g,
                ));
            }
        }
        let ghost a1 = self.spec_active();
        let ghost mid = *self;
        let out = self.consume_packets();
        let ghost t1 = self.spec_table();
        let ghost a2 = self.spec_active();
        let ghost s1 = *self;
        proof {
            let ps = choose|ps: Seq<Packet>|
                {
                    let cm = #[trigger] consume_fold(mid.consume_view(), mid.spec_cache_cap(), ps);
                    &&& self.spec_table() == cm.table
                    &&& self.spec_cache() == cm.cache
                    &&& self.spec_active() == cm.active
                    &&& out.keys@ == cm.upserted
                    &&& out.num_packets == ps.len()
                    &&& out.num_prunes as int == cm.num_prunes
                    &&& out.num_outdated as int == cm.num_outdated
                    &&& out.num_duplicates as int == cm.num_duplicates
                };
            lemma_consume_table(mid.consume_view(), mid.spec_cache_cap(), ps);
            lemma_apply_pushes_monotonic(t0, ps);
            lemma_consume_peers(mid.consume_view(), mid.spec_cache_cap(), ps);
            assert(t1 == apply_pushes(t0, ps));
            assert(exists|ps2: Seq<Packet>| t1 == #[trigger] apply_pushes(t0, ps2));
            assert(forall|k: CrdsKey| t0.contains_key(k) ==> #[trigger] t1.contains_key(k));
            assert(forall|k: CrdsKey|
                t0.contains_key(k) ==> (#[trigger] t1[k]).ordinal >= t0[k].ordinal);
            assert(peer_ids(a2) == peer_ids(a1));
            if rotated {
                assert(rotated_outcome(
                    peer_ids(a2),
                    old(self).spec_pubkey(),
                    old(self).spec_table(),
                    stakes@,
                    spb_g,
                ));
            }
        }
        let mut origins: Vec<NodeId> = Vec::new();
        let kn = out.keys.len();
        let mut ki: usize = 0;
        while ki < kn
            invariant
                ki <= kn,
                kn == out.keys@.len(),
                *self == s1,
            decreases kn - ki,
        {
            let o = out.keys[ki].origin;
            if !crate::active_set::contains_id(&origins, o) {
                origins.push(o);
            }
            ki += 1;
        }
        match self.send_prunes(rng, &origins, config, stakes, router) {
            Ok(()) => {},
            Err(e) => {
                proof {
                    let ps2 = choose|ps2: Seq<Packet>| t1 == #[trigger] apply_pushes(t0, ps2);
                    let ks: Seq<CrdsKey> = Seq::empty();
                    assert(refresh_fold(apply_pushes(t0, ps2), ks) == apply_pushes(t0, ps2));
                }
                return Err(e);
            },
        }
        let refreshed = self.refresh_entries(rng, config);
        let ghost ks_w = refreshed@;
        let ghost s2 = *self;
        proof {
            assert(self.spec_active() == a2);
            lemma_refresh_monotonic(t1, ks_w);
            let ps2 = choose|ps2: Seq<Packet>| t1 == #[trigger] apply_pushes(t0, ps2);
            assert(self.spec_table() == refresh_fold(apply_pushes(t0, ps2), ks_w));
            assert(exists|ps: Seq<Packet>, ks: Seq<CrdsKey>|
                self.spec_table() == #[trigger] refresh_fold(
                    #[trigger] apply_pushes(t0, ps),
                    ks,
                ) && (forall|q: int|
                    0 <= q < ks.len() ==> (#[trigger] ks[q]).origin == old(self).spec_pubkey()
                        && ks[q].index < config.num_crds));
            assert(forall|k: CrdsKey|
                t0.contains_key(k) ==> #[trigger] self.spec_table().contains_key(k));
            assert forall|k: CrdsKey| t0.contains_key(k) implies (
            #[trigger] self.spec_table()[k]).ordinal >= t0[k].ordinal by {
                assert(t1.contains_key(k) && t1[k].ordinal >= t0[k].ordinal);
                assert((#[trigger] refresh_fold(t1, ks_w)[k]).ordinal >= t1[k].ordinal);
            }
        }
        let keys = merge_keys(out.keys, &refreshed);
        let keys = sort_keys_by_stake(keys, stakes);
        let pn = keys.len();
        let mut pi: usize = 0;
        while pi < pn
            invariant
                pi <= pn,
                pn == keys@.len(),
                config.wf(),
                stakes.wf(),
                router.wf(),
                *self == s2,
            decreases pn - pi,
        {
            let key = keys[pi];
            let rate = if key.origin == self.pubkey {
                config.gossip_push_wide_fanout
            } else {
                config.gossip_push_fanout
            };
            let fanout = sample_rate(rng, rate);
            let peers = self.active_set.get_nodes(self.pubkey, key.origin, stakes);
            let limit = if fanout < peers.len() {
                fanout
            } else {
                peers.len()
            };
            let mut c: usize = 0;
            while c < limit
                invariant
                    c <= limit,
                    limit <= peers@.len(),
                    router.wf(),
                    *self == s2,
                    forall|q: int| 0 <= q < peers@.len() ==> peers@[q] != self.spec_pubkey(),
                decreases limit - c,
            {
                let peer = peers[c];
                proof {
                    // a push is never addressed to the node itself
                    assert(peer != self.spec_pubkey());
                }
                match self.make_push(key) {
                    Some(packet) => {
                        match router.send(rng, peer, packet) {
                            Ok(()) => {},
                            Err(e) => {
                                return Err(e);
                            },
                        }
                    },
                    None => {},
                }
                c += 1;
            }
            pi += 1;
        }
        Ok(())
    }
}

/// Builds one node per cluster member, each with the sending half of its
/// inbound channel, so that a router can be assembled from the senders.
pub fn make_gossip_cluster(members: &Vec<(NodeId, u64)>) -> (r: Vec<
    (Node, crossbeam_channel::Sender<Packet>),
>)
    ensures
        r@.len() == members@.len(),
        forall|q: int|
            0 <= q < r@.len() ==> (#[trigger] r@[q]).0.wf() && r@[q].0.spec_pubkey()
                == members@[q].0 && r@[q].0.spec_stake() == members@[q].1 && r@[q].0.spec_rounds()
                == 0 && r@[q].0.spec_table() == Map::<CrdsKey, CrdsEntry>::empty()
                && r@[q].0.spec_active() == Seq::<(NodeId, Seq<NodeId>)>::empty()
                && r@[q].0.spec_cache() == Seq::<(NodeId, Seq<(NodeId, PeerStats)>)>::empty()
                && r@[q].0.spec_cache_cap() == 2 * CRDS_UNIQUE_PUBKEY_CAPACITY,
{
    let n = members.len();
    let mut out: Vec<(Node, crossbeam_channel::Sender<Packet>)> = Vec::new();
    let mut i: usize = 0;
    while i < n
        invariant
            i <= n,
            n == members@.len(),
            out@.len() == i,
            forall|q: int|
                0 <= q < out@.len() ==> (#[trigger] out@[q]).0.wf() && out@[q].0.spec_pubkey()
                    == members@[q].0 && out@[q].0.spec_stake() == members@[q].1
                    && out@[q].0.spec_rounds() == 0 && out@[q].0.spec_table() == Map::<
                    CrdsKey,
                    CrdsEntry,
                >::empty() && out@[q].0.spec_active() == Seq::<(NodeId, Seq<NodeId>)>::empty()
                    && out@[q].0.spec_cache() == Seq::<
                    (NodeId, Seq<(NodeId, PeerStats)>),
                >::empty() && out@[q].0.spec_cache_cap() == 2 * CRDS_UNIQUE_PUBKEY_CAPACITY,
        decreases n - i,
    {
        let (id, stake) = members[i];
        let (sender, receiver) = crate::channel::new_packet_channel();
        let node = Node::new(id, stake, receiver);
        out.push((node, sender));
        i += 1;
    }
    out
}

/// Some node stores exactly this entry's ordinal for this entry's key.
pub open spec fn merged_sound(nodes: Seq<Node>, entry: (CrdsKey, u64)) -> bool {
    exists|w: int|
        0 <= w < nodes.len() && (#[trigger] nodes[w]).spec_table().contains_key(entry.0)
            && nodes[w].spec_table()[entry.0].ordinal == entry.1
}

/// The most recent CRDS table across all nodes: for every key any node
/// holds, the largest ordinal any node stores for it.
pub fn get_crds_table(nodes: &Vec<Node>) -> (r: Vec<(CrdsKey, u64)>)
    requires
        forall|q: int| 0 <= q < nodes@.len() ==> (#[trigger] nodes@[q]).wf(),
    ensures
        forall|a: int, b: int| 0 <= a < b < r@.len() ==> (#[trigger] r@[a]).0 != (#[trigger] r@[b]).0,
        forall|q: int| 0 <= q < r@.len() ==> merged_sound(nodes@, #[trigger] r@[q]),
        forall|ni: int, k: CrdsKey|
            0 <= ni < nodes@.len() && (#[trigger] nodes@[ni].spec_table().contains_key(k))
                ==> assoc_has(r@, k) && r@[assoc_idx(r@, k)].1 >= nodes@[ni].spec_table()[k].ordinal,
{
    let n = nodes.len();
    let mut out: Vec<(CrdsKey, u64)> = Vec::new();
    let mut ni: usize = 0;
    while ni < n
        invariant
            ni <= n,
            n == nodes@.len(),
            forall|q: int| 0 <= q < nodes@.len() ==> (#[trigger] nodes@[q]).wf(),
            forall|a: int, b: int|
                0 <= a < b < out@.len() ==> (#[trigger] out@[a]).0 != (#[trigger] out@[b]).0,
            forall|q: int| 0 <= q < out@.len() ==> merged_sound(nodes@, #[trigger] out@[q]),
            forall|w: int, k: CrdsKey|
                0 <= w < ni && (#[trigger] nodes@[w].spec_table().contains_key(k)) ==> assoc_has(
                    out@,
                    k,
                ) && out@[assoc_idx(out@, k)].1 >= nodes@[w].spec_table()[k].ordinal,
        decreases n - ni,
    {
        proof {
            nodes[ni as int].table.lemma_inv();
        }
        let en = nodes[ni].table.len();
        let mut ei: usize = 0;
        while ei < en
            invariant
                ei <= en,
                ni < n,
                n == nodes@.len(),
                en == nodes@[ni as int].spec_table_entries().len(),
                forall|q: int| 0 <= q < nodes@.len() ==> (#[trigger] nodes@[q]).wf(),
                forall|a: int, b: int|
                    0 <= a < b < out@.len() ==> (#[trigger] out@[a]).0 != (#[trigger] out@[b]).0,
                forall|q: int| 0 <= q < out@.len() ==> merged_sound(nodes@, #[trigger] out@[q]),
                forall|w: int, k: CrdsKey|
                    0 <= w < ni && (#[trigger] nodes@[w].spec_table().contains_key(k))
                        ==> assoc_has(out@, k) && out@[assoc_idx(out@, k)].1
                        >= nodes@[w].spec_table()[k].ordinal,
                forall|j: int|
                    0 <= j < ei ==> assoc_has(
                        out@,
                        (#[trigger] nodes@[ni as int].spec_table_entries()[j]).0,
                    ) && out@[assoc_idx(out@, nodes@[ni as int].spec_table_entries()[j].0)].1
                        >= nodes@[ni as int].spec_table_entries()[j].1.ordinal,
            decreases en - ei,
        {
            let (k, e) = nodes[ni].table.entry_at(ei);
            proof {
                nodes[ni as int].table.lemma_inv();
            }
            let o = e.ordinal;
            let m = out.len();
            let mut oi: usize = 0;
            let mut found = false;
            // merge (k, o) into the running maximum table
            while oi < m
                invariant_except_break
                    !found,
                    forall|q: int| 0 <= q < oi ==> (#[trigger] out@[q]).0 != k,
                invariant
                    oi <= m,
                    m == out@.len(),
                ensures
                    m == out@.len(),
                    found ==> oi < m && out@[oi as int].0 == k,
                    !found ==> forall|q: int| 0 <= q < m ==> (#[trigger] out@[q]).0 != k,
                decreases m - oi,
            {
                if out[oi].0 == k {
                    found = true;
                    break ;
                }
                oi += 1;
            }
            let ghost out0 = out@;
            if found {
                proof {
                    lemma_assoc_at(out@, k, oi as int);
                }
                if out[oi].1 < o {
                    out[oi] = (k, o);
                }
                proof {
                    assert forall|a: int, b: int|
                        0 <= a < b < out@.len() implies (#[trigger] out@[a]).0 != (
                    #[trigger] out@[b]).0 by {
                        assert(out@[a].0 == out0[a].0);
                        assert(out@[b].0 == out0[b].0);
                    }
                    lemma_assoc_at(out@, k, oi as int);
                    assert forall|q: int|
                        0 <= q < out@.len() implies merged_sound(nodes@, #[trigger] out@[q]) by {
                        if q == oi as int && out@[q] != out0[q] {
                            assert(nodes@[ni as int].spec_table().contains_key(k)
                                && nodes@[ni as int].spec_table()[k].ordinal == o);
                            assert(merged_sound(nodes@, (k, o)));
                        } else {
                            assert(out@[q] == out0[q]);
                            assert(merged_sound(nodes@, out0[q]));
                        }
                    }
                    assert forall|w: int, k2: CrdsKey|
                        0 <= w < ni && (#[trigger] nodes@[w].spec_table().contains_key(
                            k2,
                        )) implies assoc_has(out@, k2) && out@[assoc_idx(out@, k2)].1
                        >= nodes@[w].spec_table()[k2].ordinal by {
                        let q0 = assoc_idx(out0, k2);
                        assert(out0[q0].0 == k2);
                        assert(out@[q0].0 == k2);
                        lemma_assoc_at(out@, k2, q0);
                    }
                    assert forall|j: int|
                        0 <= j < ei + 1 implies assoc_has(
                        out@,
                        (#[trigger] nodes@[ni as int].spec_table_entries()[j]).0,
                    ) && out@[assoc_idx(out@, nodes@[ni as int].spec_table_entries()[j].0)].1
                        >= nodes@[ni as int].spec_table_entries()[j].1.ordinal by {
                        let kj = nodes@[ni as int].spec_table_entries()[j].0;
                        if j < ei as int {
                            let q0 = assoc_idx(out0, kj);
                            assert(out0[q0].0 == kj);
                            assert(out@[q0].0 == kj);
                            lemma_assoc_at(out@, kj, q0);
                        } else {
                            lemma_assoc_at(out@, k, oi as int);
                        }
                    }
                }
            } else {
                out.push((k, o));
                proof {
                    assert forall|a: int, b: int|
                        0 <= a < b < out@.len() implies (#[trigger] out@[a]).0 != (
                    #[trigger] out@[b]).0 by {
                        if b < out@.len() - 1 {
                            assert(out@[a] == out0[a]);
                            assert(out@[b] == out0[b]);
                        } else {
                            assert(out@[a] == out0[a]);
                        }
                    }
                    assert forall|q: int|
                        0 <= q < out@.len() implies merged_sound(nodes@, #[trigger] out@[q]) by {
                        if q == out@.len() - 1 {
                            assert(nodes@[ni as int].spec_table().contains_key(k)
                                && nodes@[ni as int].spec_table()[k].ordinal == o);
                            assert(merged_sound(nodes@, (k, o)));
                        } else {
                            assert(out@[q] == out0[q]);
                            assert(merged_sound(nodes@, out0[q]));
                        }
                    }
                    assert forall|w: int, k2: CrdsKey|
                        0 <= w < ni && (#[trigger] nodes@[w].spec_table().contains_key(
                            k2,
                        )) implies assoc_has(out@, k2) && out@[assoc_idx(out@, k2)].1
                        >= nodes@[w].spec_table()[k2].ordinal by {
                        let q0 = assoc_idx(out0, k2);
                        assert(out0[q0].0 == k2);
                        assert(out@[q0].0 == k2);
                        lemma_assoc_at(out@, k2, q0);
                    }
                    assert forall|j: int|
                        0 <= j < ei + 1 implies assoc_has(
                        out@,
                        (#[trigger] nodes@[ni as int].spec_table_entries()[j]).0,
                    ) && out@[assoc_idx(out@, nodes@[ni as int].spec_table_entries()[j].0)].1
                        >= nodes@[ni as int].spec_table_entries()[j].1.ordinal by {
                        let kj = nodes@[ni as int].spec_table_entries()[j].0;
                        if j < ei as int {
                            let q0 = assoc_idx(out0, kj);
                            assert(out0[q0].0 == kj);
                            assert(out@[q0].0 == kj);
                            lemma_assoc_at(out@, kj, q0);
                        } else {
                            assert(out@[out@.len() - 1].0 == k);
                            lemma_assoc_at(out@, k, out@.len() - 1);
                        }
                    }
                }
            }
            ei += 1;
        }
        proof {
            nodes[ni as int].table.lemma_inv();
            assert forall|w: int, k: CrdsKey|
                0 <= w < ni + 1 && (#[trigger] nodes@[w].spec_table().contains_key(
                    k,
                )) implies assoc_has(out@, k) && out@[assoc_idx(out@, k)].1
                >= nodes@[w].spec_table()[k].ordinal by {
                if w == ni as int {
                    let j = choose|j: int|
                        0 <= j < nodes@[w].spec_table_entries().len()
                            && nodes@[w].spec_table_entries()[j].0 == k;
                    assert(nodes@[w].spec_table_entries()[j].1 == nodes@[w].spec_table()[k]);
                }
            }
        }
        ni += 1;
    }
    out
}

} // verus!
