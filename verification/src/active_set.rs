//! The push active set: the peers a node currently fans pushes out to,
//! together with a per-peer record of the origins that peer has pruned.
//! Rebuilt periodically from logarithmic stake buckets, so that selection is
//! biased toward high stake while keeping diversity.

use crate::rng::rng_below;
use crate::seqops::{sort_triples, triple_le};
use crate::stakes::{stake_of, Stakes};
use crate::{assoc_has, assoc_idx, lemma_assoc_at, lemma_assoc_none, NodeId};
use vstd::prelude::*;

verus! {

/// Number of stake buckets. Bucket `b < 24` holds peers whose stake lies in
/// `[2^b, 2^(b+1))`; bucket 0 also absorbs zero-stake peers and bucket 24
/// absorbs everything from `2^24` up.
pub const NUM_BUCKETS: usize = 25;

pub open spec fn log2_floor(x: int) -> int
    decreases x
        when x >= 0
{
    if x < 2 {
        0
    } else {
        1 + log2_floor(x / 2)
    }
}

/// The stake bucket a peer of the given stake falls into.
pub open spec fn stake_bucket_spec(stake: u64) -> int {
    if log2_floor(stake as int) < 24 {
        log2_floor(stake as int)
    } else {
        24
    }
}

pub fn stake_bucket(stake: u64) -> (b: usize)
    ensures
        b == stake_bucket_spec(stake),
        b < NUM_BUCKETS,
{
    let mut b: usize = 0;
    let mut x: u64 = stake;
    while x >= 2 && b < 24
        invariant
            b <= 24,
            log2_floor(stake as int) == b + log2_floor(x as int),
            b == 24 ==> log2_floor(stake as int) >= 24,
        decreases x,
    {
        x = x / 2;
        b += 1;
        proof {
            if b == 24 {
                assert(log2_floor(x as int) >= 0) by {
                    lemma_log2_nonneg(x as int);
                }
            }
        }
    }
    proof {
        if x < 2 {
            assert(log2_floor(stake as int) == b);
        } else {
            lemma_log2_nonneg(x as int);
        }
    }
    b
}

pub proof fn lemma_log2_nonneg(x: int)
    requires
        x >= 0,
    ensures
        log2_floor(x) >= 0,
    decreases x,
{
    if x >= 2 {
        lemma_log2_nonneg(x / 2);
    }
}

/// The active peers (without their pruned-origins records).
pub open spec fn peer_ids(a: Seq<(NodeId, Seq<NodeId>)>) -> Seq<NodeId> {
    a.map_values(|p: (NodeId, Seq<NodeId>)| p.0)
}

/// How many of the identities in `s` have their stake in bucket `b`.
pub open spec fn bucket_count(s: Seq<NodeId>, m: Map<NodeId, u64>, b: int) -> int
    decreases s.len(),
{
    if s.len() == 0 {
        0
    } else {
        bucket_count(s.drop_last(), m, b) + if stake_bucket_spec(stake_of(m, s.last())) == b {
            1int
        } else {
            0int
        }
    }
}

/// Appending one identity raises exactly its own bucket's count.
pub proof fn lemma_bucket_count_push(s: Seq<NodeId>, m: Map<NodeId, u64>, x: NodeId)
    ensures
        forall|b: int|
            #[trigger] bucket_count(s.push(x), m, b) == bucket_count(s, m, b) + if stake_bucket_spec(
                stake_of(m, x),
            ) == b {
                1int
            } else {
                0int
            },
{
    assert forall|b: int|
        #[trigger] bucket_count(s.push(x), m, b) == bucket_count(s, m, b) + if stake_bucket_spec(
            stake_of(m, x),
        ) == b {
            1int
        } else {
            0int
        } by {
        assert(s.push(x).drop_last() =~= s);
        assert(s.push(x).last() == x);
    }
}

/// A collection whose identities all sit in buckets below `bound` counts
/// zero in every bucket from `bound` up.
pub proof fn lemma_bucket_count_zero(s: Seq<NodeId>, m: Map<NodeId, u64>, bound: int)
    requires
        forall|q: int| 0 <= q < s.len() ==> stake_bucket_spec(stake_of(m, #[trigger] s[q])) < bound,
    ensures
        forall|b: int| b >= bound ==> #[trigger] bucket_count(s, m, b) == 0,
    decreases s.len(),
{
    if s.len() > 0 {
        lemma_bucket_count_zero(s.drop_last(), m, bound);
        assert forall|b: int| b >= bound implies #[trigger] bucket_count(s, m, b) == 0 by {
            assert(bucket_count(s.drop_last(), m, b) == 0);
            assert(stake_bucket_spec(stake_of(m, s[s.len() - 1])) < bound);
        }
    }
}

/// One origin added to a peer's pruned-origins record, without duplicates.
pub open spec fn add_origin(f: Seq<NodeId>, o: NodeId) -> Seq<NodeId> {
    if f.contains(o) {
        f
    } else {
        f.push(o)
    }
}

/// A batch of origins added in order.
pub open spec fn add_origins(f: Seq<NodeId>, os: Seq<NodeId>) -> Seq<NodeId>
    decreases os.len(),
{
    if os.len() == 0 {
        f
    } else {
        add_origin(add_origins(f, os.drop_last()), os.last())
    }
}

/// Adding origins only ever extends the record, and records exactly the
/// batch on top of what was there.
pub proof fn lemma_add_origins_contains(f: Seq<NodeId>, os: Seq<NodeId>)
    ensures
        forall|x: NodeId| add_origins(f, os).contains(x) <==> f.contains(x) || os.contains(x),
    decreases os.len(),
{
    if os.len() > 0 {
        lemma_add_origins_contains(f, os.drop_last());
        let prev = add_origins(f, os.drop_last());
        let o = os.last();
        assert forall|x: NodeId| add_origins(f, os).contains(x) implies f.contains(x)
            || os.contains(x) by {
            if prev.contains(x) {
                if os.drop_last().contains(x) {
                    let k = choose|k: int| 0 <= k < os.drop_last().len() && os.drop_last()[k] == x;
                    assert(os[k] == x);
                }
            } else {
                let e = add_origins(f, os);
                let w = choose|q: int| 0 <= q < e.len() && e[q] == x;
                assert(x == o);
                assert(os[os.len() - 1] == x);
            }
        }
        assert forall|x: NodeId| f.contains(x) || os.contains(x) implies add_origins(
            f,
            os,
        ).contains(x) by {
            if os.contains(x) && x != o {
                let k = choose|k: int| 0 <= k < os.len() && os[k] == x;
                assert(os.drop_last()[k] == x);
                assert(os.drop_last().contains(x));
            }
            if prev.contains(x) && !prev.contains(o) {
                let k = choose|k: int| 0 <= k < prev.len() && prev[k] == x;
                assert(add_origins(f, os)[k] == x);
            }
            if x == o && !prev.contains(o) {
                assert(add_origins(f, os).last() == o);
            }
        }
    }
}

/// Adding origins that are all recorded already changes nothing.
pub proof fn lemma_add_origins_noop(f: Seq<NodeId>, os: Seq<NodeId>)
    requires
        forall|k: int| 0 <= k < os.len() ==> f.contains(#[trigger] os[k]),
    ensures
        add_origins(f, os) == f,
    decreases os.len(),
{
    if os.len() > 0 {
        lemma_add_origins_noop(f, os.drop_last());
        assert(f.contains(os[os.len() - 1]));
    }
}

/// Adding origins keeps the record free of duplicates.
pub proof fn lemma_add_origins_distinct(f: Seq<NodeId>, os: Seq<NodeId>)
    requires
        forall|a: int, b: int| 0 <= a < b < f.len() ==> f[a] != f[b],
    ensures
        forall|a: int, b: int|
            0 <= a < b < add_origins(f, os).len() ==> add_origins(f, os)[a] != add_origins(f, os)[b],
    decreases os.len(),
{
    if os.len() > 0 {
        lemma_add_origins_distinct(f, os.drop_last());
        let prev = add_origins(f, os.drop_last());
        let o = os.last();
        if !prev.contains(o) {
            assert forall|a: int, b: int|
                0 <= a < b < add_origins(f, os).len() implies add_origins(f, os)[a] != add_origins(
                f,
                os,
            )[b] by {
                if b == add_origins(f, os).len() - 1 {
                    assert(prev.contains(prev[a]));
                }
            }
        }
    }
}

/// The active set after a `Prune{from, origins}`: the listed origins join
/// `from`'s pruned record; an unknown `from` changes nothing.
pub open spec fn prune_model(
    a: Seq<(NodeId, Seq<NodeId>)>,
    from: NodeId,
    origins: Seq<NodeId>,
) -> Seq<(NodeId, Seq<NodeId>)> {
    if assoc_has(a, from) {
        let i = assoc_idx(a, from);
        a.update(i, (from, add_origins(a[i].1, origins)))
    } else {
        a
    }
}

/// Pruning is idempotent: applying the same `Prune{origins}` from the same
/// peer twice leaves the active set exactly as applying it once does, so
/// everything observable through `get_nodes` is unchanged as well.
pub proof fn lemma_prune_idempotent(a: Seq<(NodeId, Seq<NodeId>)>, from: NodeId, origins: Seq<NodeId>)
    requires
        forall|i: int, j: int| 0 <= i < j < a.len() ==> (#[trigger] a[i]).0 != (#[trigger] a[j]).0,
    ensures
        prune_model(prune_model(a, from, origins), from, origins) == prune_model(a, from, origins),
{
    if assoc_has(a, from) {
        let i = assoc_idx(a, from);
        assert(a[i].0 == from);
        let a2 = prune_model(a, from, origins);
        assert(a2 == a.update(i, (from, add_origins(a[i].1, origins))));
        assert forall|x: int, y: int| 0 <= x < y < a2.len() implies (#[trigger] a2[x]).0 != (
        #[trigger] a2[y]).0 by {
            assert(a2[x].0 == a[x].0);
            assert(a2[y].0 == a[y].0);
        }
        assert(a2[i].0 == from);
        lemma_assoc_at(a2, from, i);
        lemma_add_origins_contains(a[i].1, origins);
        assert forall|k: int| 0 <= k < origins.len() implies a2[i].1.contains(
            #[trigger] origins[k],
        ) by {
            assert(origins.contains(origins[k]));
        }
        lemma_add_origins_noop(a2[i].1, origins);
        assert(prune_model(a2, from, origins) == a2.update(i, (from, a2[i].1)));
        assert(a2.update(i, (from, a2[i].1)) =~= a2);
    } else {
        lemma_assoc_none(a, from);
    }
}

/// Whether `x` is an active peer that has not pruned `origin`.
pub open spec fn eligible_peer(a: Seq<(NodeId, Seq<NodeId>)>, origin: NodeId, x: NodeId) -> bool {
    exists|k: int| 0 <= k < a.len() && (#[trigger] a[k]).0 == x && !a[k].1.contains(origin)
}

/// The fan-out candidates drawn from the active set for pushes of values
/// minted by a given origin: one triple `(u64::MAX - stake, peer, 0)` per
/// active peer that is not the node itself and has not pruned that origin,
/// so that ascending lexicographic order ranks highest stake first.
pub open spec fn fanout_triples(
    a: Seq<(NodeId, Seq<NodeId>)>,
    self_id: NodeId,
    origin: NodeId,
    m: Map<NodeId, u64>,
) -> Seq<(u64, u64, u64)>
    decreases a.len(),
{
    if a.len() == 0 {
        Seq::empty()
    } else {
        let rest = fanout_triples(a.drop_last(), self_id, origin, m);
        let p = a.last();
        if p.0 == self_id || p.1.contains(origin) {
            rest
        } else {
            rest.push(((u64::MAX - stake_of(m, p.0)) as u64, p.0, 0u64))
        }
    }
}

/// Every fan-out candidate is an active peer other than the node itself that
/// has not pruned the origin, carrying its own stake.
pub proof fn lemma_fanout_props(
    a: Seq<(NodeId, Seq<NodeId>)>,
    self_id: NodeId,
    origin: NodeId,
    m: Map<NodeId, u64>,
)
    ensures
        forall|t: (u64, u64, u64)|
            #[trigger] fanout_triples(a, self_id, origin, m).contains(t) ==> t.1 != self_id && t.0
                == (u64::MAX - stake_of(m, t.1)) as u64 && eligible_peer(a, origin, t.1),
    decreases a.len(),
{
    if a.len() > 0 {
        lemma_fanout_props(a.drop_last(), self_id, origin, m);
        assert forall|t: (u64, u64, u64)|
            #[trigger] fanout_triples(a, self_id, origin, m).contains(t) implies t.1 != self_id
            && t.0 == (u64::MAX - stake_of(m, t.1)) as u64 && eligible_peer(a, origin, t.1) by {
            let e = fanout_triples(a, self_id, origin, m);
            let rest = fanout_triples(a.drop_last(), self_id, origin, m);
            let p = a.last();
            let w = choose|q: int| 0 <= q < e.len() && e[q] == t;
            if !(p.0 == self_id || p.1.contains(origin)) && w == e.len() - 1 {
                assert(a[a.len() - 1].0 == t.1 && !a[a.len() - 1].1.contains(origin));
                assert(eligible_peer(a, origin, t.1));
            } else {
                assert(rest.contains(t));
                assert(eligible_peer(a.drop_last(), origin, t.1));
                let k = choose|k: int|
                    0 <= k < a.drop_last().len() && (#[trigger] a.drop_last()[k]).0 == t.1
                        && !a.drop_last()[k].1.contains(origin);
                assert(a[k].0 == t.1 && !a[k].1.contains(origin));
                assert(eligible_peer(a, origin, t.1));
            }
        }
    }
}

/// Every eligible active peer appears among the fan-out candidates.
pub proof fn lemma_fanout_complete(
    a: Seq<(NodeId, Seq<NodeId>)>,
    self_id: NodeId,
    origin: NodeId,
    m: Map<NodeId, u64>,
)
    ensures
        forall|k: int|
            0 <= k < a.len() && (#[trigger] a[k]).0 != self_id && !a[k].1.contains(origin)
                ==> fanout_triples(a, self_id, origin, m).contains(
                ((u64::MAX - stake_of(m, a[k].0)) as u64, a[k].0, 0u64),
            ),
    decreases a.len(),
{
    if a.len() > 0 {
        lemma_fanout_complete(a.drop_last(), self_id, origin, m);
        assert forall|k: int|
            0 <= k < a.len() && (#[trigger] a[k]).0 != self_id && !a[k].1.contains(
                origin,
            ) implies fanout_triples(a, self_id, origin, m).contains(
            ((u64::MAX - stake_of(m, a[k].0)) as u64, a[k].0, 0u64),
        ) by {
            let e = fanout_triples(a, self_id, origin, m);
            let rest = fanout_triples(a.drop_last(), self_id, origin, m);
            let t = ((u64::MAX - stake_of(m, a[k].0)) as u64, a[k].0, 0u64);
            if k == a.len() - 1 {
                assert(e.last() == t);
            } else {
                assert(a.drop_last()[k] == a[k]);
                assert(rest.contains(t));
                let q = choose|q: int| 0 <= q < rest.len() && rest[q] == t;
                assert(e[q] == t);
            }
        }
    }
}

/// The identities of a peer vector, in order.
pub open spec fn vec_peer_ids(s: Seq<(NodeId, Vec<NodeId>)>) -> Seq<NodeId> {
    s.map_values(|p: (NodeId, Vec<NodeId>)| p.0)
}

/// Stake-bucketed set of outgoing peers, each with its pruned-origins record.
pub struct PushActiveSet {
    peers: Vec<(NodeId, Vec<NodeId>)>,
}

impl PushActiveSet {
    /// The active peers with their pruned-origins records.
    pub closed spec fn peers_seq(&self) -> Seq<(NodeId, Seq<NodeId>)> {
        self.peers@.map_values(|p: (NodeId, Vec<NodeId>)| (p.0, p.1@))
    }

    /// Peers are distinct and each pruned-origins record is duplicate-free.
    pub closed spec fn wf(&self) -> bool {
        &&& forall|i: int, j: int|
            0 <= i < j < self.peers@.len() ==> (#[trigger] self.peers@[i]).0 != (
            #[trigger] self.peers@[j]).0
        &&& forall|i: int, a: int, b: int|
            0 <= i < self.peers@.len() && 0 <= a < b < (#[trigger] self.peers@[i]).1@.len() ==> (
            #[trigger] self.peers@[i].1@[a]) != (#[trigger] self.peers@[i].1@[b])
    }

    /// The peers, as the public view sees them, are distinct.
    pub proof fn lemma_peers_distinct(&self)
        requires
            self.wf(),
        ensures
            forall|a: int, b: int|
                0 <= a < b < self.peers_seq().len() ==> (#[trigger] self.peers_seq()[a]).0 != (
                #[trigger] self.peers_seq()[b]).0,
    {
        assert forall|a: int, b: int| 0 <= a < b < self.peers_seq().len() implies (
        #[trigger] self.peers_seq()[a]).0 != (#[trigger] self.peers_seq()[b]).0 by {
            assert(self.peers_seq()[a].0 == self.peers@[a].0);
            assert(self.peers_seq()[b].0 == self.peers@[b].0);
        }
    }

    pub fn new() -> (s: Self)
        ensures
            s.wf(),
            s.peers_seq() == Seq::<(NodeId, Seq<NodeId>)>::empty(),
    {
        let s = PushActiveSet { peers: Vec::new() };
        proof {
            assert(s.peers_seq() =~= Seq::<(NodeId, Seq<NodeId>)>::empty());
        }
        s
    }

    /// Index of `peer` among the active peers, if present.
    fn find_peer(&self, peer: NodeId) -> (r: Option<usize>)
        ensures
            match r {
                Some(i) => i < self.peers@.len() && self.peers@[i as int].0 == peer,
                None => forall|q: int|
                    0 <= q < self.peers@.len() ==> (#[trigger] self.peers@[q]).0 != peer,
            },
    {
        let n = self.peers.len();
        let mut i: usize = 0;
        while i < n
            invariant
                i <= n,
                n == self.peers@.len(),
                forall|q: int| 0 <= q < i ==> (#[trigger] self.peers@[q]).0 != peer,
            decreases n - i,
        {
            if self.peers[i].0 == peer {
                return Some(i);
            }
            i += 1;
        }
        None
    }

    /// Marks in `from`'s record that each origin in `origins` is pruned;
    /// subsequent `get_nodes` calls for such an origin skip that peer.
    pub fn prune(&mut self, from: NodeId, origins: &Vec<NodeId>)
        requires
            old(self).wf(),
        ensures
            final(self).wf(),
            final(self).peers_seq() == prune_model(old(self).peers_seq(), from, origins@),
    {
        let ghost a0 = self.peers_seq();
        let i = match self.find_peer(from) {
            Some(i) => i,
            None => {
                proof {
                    assert forall|q: int| 0 <= q < a0.len() implies (#[trigger] a0[q]).0
                        != from by {
                        assert(a0[q].0 == self.peers@[q].0);
                    }
                    lemma_assoc_none(a0, from);
                }
                return ;
            },
        };
        proof {
            self.lemma_peers_distinct();
            assert(a0[i as int] == (self.peers@[i as int].0, self.peers@[i as int].1@));
            lemma_assoc_at(a0, from, i as int);
        }
        let ghost f0 = self.peers@[i as int].1@;
        let m = self.peers[i].1.len();
        let mut f: Vec<NodeId> = Vec::new();
        let mut t: usize = 0;
        while t < m
            invariant
                t <= m,
                i < self.peers@.len(),
                m == f0.len(),
                f0 == self.peers@[i as int].1@,
                f@ == f0.take(t as int),
            decreases m - t,
        {
            proof {
                assert(f0.take(t + 1) =~= f0.take(t as int).push(f0[t as int]));
            }
            f.push(self.peers[i].1[t]);
            t += 1;
        }
        proof {
            assert(f0.take(m as int) =~= f0);
            assert(add_origins(f0, origins@.take(0)) == f0);
        }
        let k = origins.len();
        let mut t2: usize = 0;
        while t2 < k
            invariant
                t2 <= k,
                k == origins@.len(),
                f@ == add_origins(f0, origins@.take(t2 as int)),
            decreases k - t2,
        {
            proof {
                assert(origins@.take(t2 + 1).drop_last() =~= origins@.take(t2 as int));
                assert(origins@.take(t2 + 1).last() == origins@[t2 as int]);
            }
            let o = origins[t2];
            if !contains_id(&f, o) {
                f.push(o);
            }
            t2 += 1;
        }
        proof {
            assert(origins@.take(k as int) =~= origins@);
        }
        let ghost fnew = f@;
        self.peers[i] = (from, f);
        proof {
            assert(self.peers@ =~= old(self).peers@.update(i as int, (from, self.peers@[i as int].1)));
            assert(self.peers_seq() =~~= prune_model(a0, from, origins@));
            assert forall|x: int, y: int| 0 <= x < y < self.peers@.len() implies (
            #[trigger] self.peers@[x]).0 != (#[trigger] self.peers@[y]).0 by {
                assert(self.peers@[x].0 == old(self).peers@[x].0);
                assert(self.peers@[y].0 == old(self).peers@[y].0);
            }
            assert forall|ii: int, a: int, b: int|
                0 <= ii < self.peers@.len() && 0 <= a < b < (
            #[trigger] self.peers@[ii]).1@.len() implies (#[trigger] self.peers@[ii].1@[a]) != (
            #[trigger] self.peers@[ii].1@[b]) by {
                if ii != i as int {
                    assert(self.peers@[ii] == old(self).peers@[ii]);
                } else {
                    assert(self.peers@[ii].1@ == fnew);
                    assert forall|x: int, y: int| 0 <= x < y < f0.len() implies f0[x] != f0[y] by {
                        assert(old(self).peers@[i as int].1@ == f0);
                    }
                    lemma_add_origins_distinct(f0, origins@);
                }
            }
        }
    }

    /// The peers to push a value minted by `origin` to, highest stake first
    /// (ties broken by peer identity), skipping the node itself and every
    /// peer that has pruned `origin`.
    pub fn get_nodes(&self, self_id: NodeId, origin: NodeId, stakes: &Stakes) -> (r: Vec<NodeId>)
        requires
            self.wf(),
            stakes.wf(),
        ensures
            exists|sorted: Seq<(u64, u64, u64)>|
                #[trigger] sorted.to_multiset() == fanout_triples(
                    self.peers_seq(),
                    self_id,
                    origin,
                    stakes@,
                ).to_multiset() && (forall|a: int, b: int|
                    0 <= a < b < sorted.len() ==> triple_le(sorted[a], sorted[b])) && r@
                    == sorted.map_values(|t: (u64, u64, u64)| t.1),
            forall|q: int| 0 <= q < r@.len() ==> r@[q] != self_id,
            forall|q: int|
                0 <= q < r@.len() ==> eligible_peer(self.peers_seq(), origin, #[trigger] r@[q]),
            forall|k: int|
                0 <= k < self.peers_seq().len() && (#[trigger] self.peers_seq()[k]).0 != self_id
                    && !self.peers_seq()[k].1.contains(origin) ==> r@.contains(
                    self.peers_seq()[k].0,
                ),
            forall|a: int, b: int|
                0 <= a < b < r@.len() ==> stake_of(stakes@, r@[a]) >= stake_of(stakes@, r@[b]),
    {
        let ghost aseq = self.peers_seq();
        let ghost elig = fanout_triples(aseq, self_id, origin, stakes@);
        let n = self.peers.len();
        let mut trips: Vec<(u64, u64, u64)> = Vec::new();
        let mut k: usize = 0;
        while k < n
            invariant
                k <= n,
                n == self.peers@.len(),
                self.wf(),
                stakes.wf(),
                aseq == self.peers_seq(),
                trips@ == fanout_triples(aseq.take(k as int), self_id, origin, stakes@),
            decreases n - k,
        {
            proof {
                assert(aseq.take(k + 1).drop_last() =~= aseq.take(k as int));
                assert(aseq.take(k + 1).last() == aseq[k as int]);
                assert(aseq[k as int] == (self.peers@[k as int].0, self.peers@[k as int].1@));
            }
            let p = self.peers[k].0;
            let pruned_here = contains_id(&self.peers[k].1, origin);
            if p != self_id && !pruned_here {
                let stake = stakes.get(p);
                trips.push((u64::MAX - stake, p, 0u64));
            }
            k += 1;
        }
        proof {
            assert(aseq.take(n as int) =~= aseq);
            lemma_fanout_props(aseq, self_id, origin, stakes@);
        }
        let sorted = sort_triples(trips);
        let len = sorted.len();
        let mut out: Vec<NodeId> = Vec::new();
        let mut j: usize = 0;
        while j < len
            invariant
                j <= len,
                len == sorted@.len(),
                out@ == sorted@.subrange(0, j as int).map_values(|t: (u64, u64, u64)| t.1),
                forall|q: int| 0 <= q < out@.len() ==> out@[q] != self_id,
                forall|t: (u64, u64, u64)| sorted@.contains(t) <==> elig.contains(t),
                forall|t: (u64, u64, u64)|
                    #[trigger] elig.contains(t) ==> t.1 != self_id && t.0 == (u64::MAX - stake_of(
                        stakes@,
                        t.1,
                    )) as u64 && eligible_peer(aseq, origin, t.1),
                forall|q: int|
                    0 <= q < out@.len() ==> eligible_peer(aseq, origin, #[trigger] out@[q]),
            decreases len - j,
        {
            let t = sorted[j];
            proof {
                assert(sorted@.contains(sorted@[j as int]));
                assert(elig.contains(sorted@[j as int]));
                assert(sorted@.subrange(0, j + 1) =~= sorted@.subrange(0, j as int).push(
                    sorted@[j as int],
                ));
                assert(sorted@.subrange(0, j + 1).map_values(|t: (u64, u64, u64)| t.1)
                    =~= sorted@.subrange(0, j as int).map_values(|t: (u64, u64, u64)| t.1).push(
                    sorted@[j as int].1,
                ));
            }
            out.push(t.1);
            j += 1;
        }
        proof {
            assert(sorted@.subrange(0, len as int) =~= sorted@);
            assert(out@ == sorted@.map_values(|t: (u64, u64, u64)| t.1));
            lemma_fanout_complete(aseq, self_id, origin, stakes@);
            assert forall|k: int|
                0 <= k < aseq.len() && (#[trigger] aseq[k]).0 != self_id && !aseq[k].1.contains(
                    origin,
                ) implies out@.contains(aseq[k].0) by {
                let t = ((u64::MAX - stake_of(stakes@, aseq[k].0)) as u64, aseq[k].0, 0u64);
                assert(elig.contains(t));
                assert(sorted@.contains(t));
                let q = choose|q: int| 0 <= q < sorted@.len() && sorted@[q] == t;
                assert(out@[q] == aseq[k].0);
            }
            assert forall|a: int, b: int| 0 <= a < b < out@.len() implies stake_of(
                stakes@,
                out@[a],
            ) >= stake_of(stakes@, out@[b]) by {
                assert(sorted@.contains(sorted@[a]));
                assert(sorted@.contains(sorted@[b]));
                assert(elig.contains(sorted@[a]));
                assert(elig.contains(sorted@[b]));
                assert(triple_le(sorted@[a], sorted@[b]));
            }
        }
        out
    }

    /// Rebuilds the active set: partitions the candidates into logarithmic
    /// stake buckets and draws `size_per_bucket` peers uniformly without
    /// replacement from each (all of them, where a bucket holds fewer), every
    /// selected peer starting with an empty pruned-origins record. Which
    /// peers come out is up to the generator; every outcome is a
    /// duplicate-free subset of the candidates, and per bucket the selection
    /// count is exactly the smaller of `size_per_bucket` and the bucket's
    /// candidate population.
    #[verifier::loop_isolation(false)]
    pub fn rotate(
        &mut self,
        rng: &mut rand::rngs::StdRng,
        size_per_bucket: usize,
        candidates: &Vec<NodeId>,
        stakes: &Stakes,
    )
        requires
            stakes.wf(),
            forall|a: int, b: int|
                0 <= a < b < candidates@.len() ==> candidates@[a] != candidates@[b],
        ensures
            final(self).wf(),
            forall|q: int|
                0 <= q < final(self).peers_seq().len() ==> (#[trigger] final(self).peers_seq()[q]).1
                    == Seq::<NodeId>::empty() && candidates@.contains(
                    final(self).peers_seq()[q].0,
                ),
            forall|b: int|
                0 <= b < NUM_BUCKETS ==> #[trigger] bucket_count(
                    peer_ids(final(self).peers_seq()),
                    stakes@,
                    b,
                ) == (if size_per_bucket as int <= bucket_count(candidates@, stakes@, b) {
                    size_per_bucket as int
                } else {
                    bucket_count(candidates@, stakes@, b)
                }),
    {
        let mut new_peers: Vec<(NodeId, Vec<NodeId>)> = Vec::new();
        let mut b: usize = 0;
        while b < NUM_BUCKETS
            invariant
                b <= NUM_BUCKETS,
                stakes.wf(),
                forall|a2: int, b2: int|
                    0 <= a2 < b2 < candidates@.len() ==> candidates@[a2] != candidates@[b2],
                forall|q: int|
                    0 <= q < new_peers@.len() ==> (#[trigger] new_peers@[q]).1@ == Seq::<
                        NodeId,
                    >::empty() && candidates@.contains(new_peers@[q].0) && stake_bucket_spec(
                        stake_of(stakes@, new_peers@[q].0),
                    ) < b,
                forall|x: int, y: int|
                    0 <= x < y < new_peers@.len() ==> (#[trigger] new_peers@[x]).0 != (
                    #[trigger] new_peers@[y]).0,
                forall|b2: int|
                    0 <= b2 < b ==> #[trigger] bucket_count(vec_peer_ids(new_peers@), stakes@, b2)
                        == (if size_per_bucket as int <= bucket_count(candidates@, stakes@, b2) {
                        size_per_bucket as int
                    } else {
                        bucket_count(candidates@, stakes@, b2)
                    }),
            decreases NUM_BUCKETS - b,
        {
            let n = candidates.len();
            let mut bucket: Vec<NodeId> = Vec::new();
            let mut c: usize = 0;
            while c < n
                invariant
                    c <= n,
                    n == candidates@.len(),
                    stakes.wf(),
                    forall|a2: int, b2: int|
                        0 <= a2 < b2 < candidates@.len() ==> candidates@[a2] != candidates@[b2],
                    forall|q: int|
                        0 <= q < bucket@.len() ==> (exists|z: int|
                            0 <= z < c && candidates@[z] == (#[trigger] bucket@[q]))
                            && stake_bucket_spec(stake_of(stakes@, bucket@[q])) == b,
                    forall|x: int, y: int|
                        0 <= x < y < bucket@.len() ==> bucket@[x] != bucket@[y],
                    forall|q: int, w: int|
                        0 <= q < bucket@.len() && 0 <= w < new_peers@.len() ==> (
                        #[trigger] bucket@[q]) != (#[trigger] new_peers@[w]).0,
                    forall|q: int|
                        0 <= q < new_peers@.len() ==> (#[trigger] new_peers@[q]).1@ == Seq::<
                            NodeId,
                        >::empty() && candidates@.contains(new_peers@[q].0) && stake_bucket_spec(
                            stake_of(stakes@, new_peers@[q].0),
                        ) < b,
                    forall|x: int, y: int|
                        0 <= x < y < new_peers@.len() ==> (#[trigger] new_peers@[x]).0 != (
                        #[trigger] new_peers@[y]).0,
                    forall|q: int|
                        0 <= q < c && stake_bucket_spec(
                            stake_of(stakes@, #[trigger] candidates@[q]),
                        ) == b ==> bucket@.contains(candidates@[q]),
                    bucket@.len() == bucket_count(candidates@.take(c as int), stakes@, b as int),
                    forall|b2: int|
                        0 <= b2 < b ==> #[trigger] bucket_count(
                            vec_peer_ids(new_peers@),
                            stakes@,
                            b2,
                        ) == (if size_per_bucket as int <= bucket_count(
                            candidates@,
                            stakes@,
                            b2,
                        ) {
                            size_per_bucket as int
                        } else {
                            bucket_count(candidates@, stakes@, b2)
                        }),
                decreases n - c,
            {
                proof {
                    assert(candidates@.take(c + 1).drop_last() =~= candidates@.take(c as int));
                    assert(candidates@.take(c + 1).last() == candidates@[c as int]);
                }
                let cand = candidates[c];
                let ghost bprev = bucket@;
                if stake_bucket(stakes.get(cand)) == b {
                    proof {
                        assert forall|q: int| 0 <= q < bucket@.len() implies (
                        #[trigger] bucket@[q]) != cand by {
                            let z = choose|z: int|
                                0 <= z < c && candidates@[z] == bucket@[q];
                        }
                    }
                    bucket.push(cand);
                    proof {
                        assert forall|q: int| 0 <= q < bucket@.len() implies (exists|z: int|
                            0 <= z < c + 1 && candidates@[z] == (#[trigger] bucket@[q]))
                            && stake_bucket_spec(stake_of(stakes@, bucket@[q])) == b by {
                            if q < bucket@.len() - 1 {
                                assert(bucket@[q] == bprev[q]);
                                let z = choose|z: int| 0 <= z < c && candidates@[z] == bprev[q];
                                assert(candidates@[z] == bucket@[q]);
                            } else {
                                assert(candidates@[c as int] == bucket@[q]);
                            }
                        }
                        assert forall|q: int|
                            0 <= q < c + 1 && stake_bucket_spec(
                                stake_of(stakes@, #[trigger] candidates@[q]),
                            ) == b implies bucket@.contains(candidates@[q]) by {
                            if q < c as int {
                                assert(bprev.contains(candidates@[q]));
                                let z = choose|z: int| 0 <= z < bprev.len() && bprev[z] == candidates@[q];
                                assert(bucket@[z] == candidates@[q]);
                            } else {
                                assert(bucket@[bucket@.len() - 1] == candidates@[q]);
                            }
                        }
                    }
                }
                c += 1;
            }
            proof {
                assert forall|q: int| 0 <= q < bucket@.len() implies candidates@.contains(
                    #[trigger] bucket@[q],
                ) by {
                    let z = choose|z: int| 0 <= z < c && candidates@[z] == bucket@[q];
                }
                assert(candidates@.take(n as int) =~= candidates@);
            }
            let ghost bucket_pop = bucket_count(candidates@, stakes@, b as int);
            let ghost ids0 = vec_peer_ids(new_peers@);
            proof {
                assert(bucket@.len() == bucket_pop);
                assert forall|q: int| 0 <= q < ids0.len() implies stake_bucket_spec(
                    stake_of(stakes@, #[trigger] ids0[q]),
                ) < b as int by {
                    assert(ids0[q] == new_peers@[q].0);
                }
                lemma_bucket_count_zero(ids0, stakes@, b as int);
            }
            let mut picked: usize = 0;
            while picked < size_per_bucket && bucket.len() > 0
                invariant
                    stakes.wf(),
                    forall|q: int|
                        0 <= q < bucket@.len() ==> candidates@.contains(#[trigger] bucket@[q])
                            && stake_bucket_spec(stake_of(stakes@, bucket@[q])) == b,
                    forall|x: int, y: int|
                        0 <= x < y < bucket@.len() ==> bucket@[x] != bucket@[y],
                    forall|q: int, w: int|
                        0 <= q < bucket@.len() && 0 <= w < new_peers@.len() ==> (
                        #[trigger] bucket@[q]) != (#[trigger] new_peers@[w]).0,
                    forall|q: int|
                        0 <= q < new_peers@.len() ==> (#[trigger] new_peers@[q]).1@ == Seq::<
                            NodeId,
                        >::empty() && candidates@.contains(new_peers@[q].0),
                    forall|x: int, y: int|
                        0 <= x < y < new_peers@.len() ==> (#[trigger] new_peers@[x]).0 != (
                        #[trigger] new_peers@[y]).0,
                    forall|q: int|
                        0 <= q < new_peers@.len() ==> stake_bucket_spec(
                            stake_of(stakes@, (#[trigger] new_peers@[q]).0),
                        ) <= b,
                    picked <= size_per_bucket,
                    picked + bucket@.len() == bucket_pop,
                    bucket_count(vec_peer_ids(new_peers@), stakes@, b as int) == picked as int,
                    forall|b2: int|
                        b2 != b as int ==> #[trigger] bucket_count(
                            vec_peer_ids(new_peers@),
                            stakes@,
                            b2,
                        ) == bucket_count(ids0, stakes@, b2),
                decreases size_per_bucket - picked,
            {
                let idx = rng_below(rng, bucket.len());
                let ghost bseq = bucket@;
                let x = bucket.remove(idx);
                proof {
                    bseq.remove_ensures(idx as int);
                    assert forall|q: int| 0 <= q < bucket@.len() implies (#[trigger] bucket@[q])
                        != x && candidates@.contains(bucket@[q]) && stake_bucket_spec(
                        stake_of(stakes@, bucket@[q]),
                    ) == b by {
                        if q < idx as int {
                            assert(bucket@[q] == bseq[q]);
                        } else {
                            assert(bucket@[q] == bseq[q + 1]);
                        }
                    }
                    assert(candidates@.contains(x) && stake_bucket_spec(stake_of(stakes@, x))
                        == b) by {
                        assert(bseq[idx as int] == x);
                    }
                }
                let ghost ids_prev = vec_peer_ids(new_peers@);
                let empty_rec: Vec<NodeId> = Vec::new();
                new_peers.push((x, empty_rec));
                proof {
                    assert(vec_peer_ids(new_peers@) =~= ids_prev.push(x));
                    lemma_bucket_count_push(ids_prev, stakes@, x);
                }
                picked += 1;
            }
            b += 1;
            proof {
                assert forall|q: int| 0 <= q < new_peers@.len() implies stake_bucket_spec(
                    stake_of(stakes@, (#[trigger] new_peers@[q]).0),
                ) < b by {}
                assert forall|b2: int| 0 <= b2 < b implies #[trigger] bucket_count(
                    vec_peer_ids(new_peers@),
                    stakes@,
                    b2,
                ) == (if size_per_bucket as int <= bucket_count(candidates@, stakes@, b2) {
                    size_per_bucket as int
                } else {
                    bucket_count(candidates@, stakes@, b2)
                }) by {
                    if b2 == b - 1 {
                        assert(bucket_count(vec_peer_ids(new_peers@), stakes@, b2)
                            == picked as int);
                    } else {
                        assert(bucket_count(vec_peer_ids(new_peers@), stakes@, b2)
                            == bucket_count(ids0, stakes@, b2));
                    }
                }
            }
        }
        self.peers = new_peers;
        proof {
            assert forall|q: int| 0 <= q < self.peers_seq().len() implies (
            #[trigger] self.peers_seq()[q]).1 == Seq::<NodeId>::empty() && candidates@.contains(
                self.peers_seq()[q].0,
            ) by {
                assert(self.peers_seq()[q] == (self.peers@[q].0, self.peers@[q].1@));
            }
            assert(peer_ids(self.peers_seq()) =~= vec_peer_ids(self.peers@));
        }
    }
}

/// Whether `v` holds `x`.
pub fn contains_id(v: &Vec<NodeId>, x: NodeId) -> (r: bool)
    ensures
        r == v@.contains(x),
{
    let n = v.len();
    let mut i: usize = 0;
    while i < n
        invariant
            i <= n,
            n == v@.len(),
            forall|q: int| 0 <= q < i ==> v@[q] != x,
        decreases n - i,
    {
        if v[i] == x {
            proof {
                assert(v@[i as int] == x);
            }
            return true;
        }
        i += 1;
    }
    proof {
        if v@.contains(x) {
            let q = choose|q: int| 0 <= q < v@.len() && v@[q] == x;
            assert(false);
        }
    }
    false
}

} // verus!
