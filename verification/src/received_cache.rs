//! Per-origin ingress bookkeeping: which peers deliver an origin's updates
//! and how usefully they do so. A peer that forwards mostly fresh values
//! accumulates a low duplicate weight; one that keeps forwarding stale or
//! already-seen values accumulates a high one. The cache proposes prune
//! targets from this record. It is bounded over distinct origins and evicts
//! the least-recently-touched origin on overflow.

use crate::seqops::{lemma_sorted_triples_is, sort_triples, sorted_triples};
use crate::stakes::{sat_add64, sat_sum, stake_of, Stakes};
use crate::{assoc_has, assoc_idx, lemma_assoc_at, lemma_assoc_none, NodeId};
use vstd::prelude::*;

verus! {

/// Ingress counters for one (origin, peer) pair: total arrivals and the
/// accumulated duplicate weight (both saturating).
#[derive(Clone, Copy, Debug, PartialEq, Eq, Structural)]
pub struct PeerStats {
    pub count: u64,
    pub weight: u64,
}

pub open spec fn new_stats(w: u64) -> PeerStats {
    PeerStats { count: 1, weight: w }
}

pub open spec fn bump_stats(st: PeerStats, w: u64) -> PeerStats {
    PeerStats { count: sat_add64(st.count, 1), weight: sat_add64(st.weight, w) }
}

/// One origin's row after recording an arrival from `peer` with duplicate
/// weight `w`.
pub open spec fn record_row(row: Seq<(NodeId, PeerStats)>, peer: NodeId, w: u64) -> Seq<
    (NodeId, PeerStats),
> {
    if assoc_has(row, peer) {
        let j = assoc_idx(row, peer);
        row.update(j, (peer, bump_stats(row[j].1, w)))
    } else {
        row.push((peer, new_stats(w)))
    }
}

/// The whole cache after recording an arrival: the touched origin's row moves
/// to the most-recent end; a new origin evicts the least-recently-touched row
/// when the cache is full.
pub open spec fn record_model(
    rows: Seq<(NodeId, Seq<(NodeId, PeerStats)>)>,
    origin: NodeId,
    peer: NodeId,
    w: u64,
    capacity: int,
) -> Seq<(NodeId, Seq<(NodeId, PeerStats)>)> {
    if assoc_has(rows, origin) {
        let i = assoc_idx(rows, origin);
        rows.remove(i).push((origin, record_row(rows[i].1, peer, w)))
    } else if rows.len() >= capacity {
        rows.remove(0).push((origin, seq![(peer, new_stats(w))]))
    } else {
        rows.push((origin, seq![(peer, new_stats(w))]))
    }
}

/// The stats stored for `peer` under `origin`, if any.
pub open spec fn stats_model(
    rows: Seq<(NodeId, Seq<(NodeId, PeerStats)>)>,
    origin: NodeId,
    peer: NodeId,
) -> Option<PeerStats> {
    if assoc_has(rows, origin) {
        let row = rows[assoc_idx(rows, origin)].1;
        if assoc_has(row, peer) {
            Some(row[assoc_idx(row, peer)].1)
        } else {
            None
        }
    } else {
        None
    }
}

/// Ranking records for one origin's row: one triple
/// `(weight, u64::MAX - stake, peer)` per recorded peer other than the node
/// itself, so that ascending lexicographic order ranks best first (lowest
/// duplicate weight, then highest stake, then lowest peer identity).
pub open spec fn eligible_triples(
    row: Seq<(NodeId, PeerStats)>,
    self_id: NodeId,
    m: Map<NodeId, u64>,
) -> Seq<(u64, u64, u64)>
    decreases row.len(),
{
    if row.len() == 0 {
        Seq::empty()
    } else {
        let rest = eligible_triples(row.drop_last(), self_id, m);
        let p = row.last();
        if p.0 == self_id {
            rest
        } else {
            rest.push((p.1.weight, (u64::MAX - stake_of(m, p.0)) as u64, p.0))
        }
    }
}

/// Every ranking record names a recorded peer other than the node itself.
pub proof fn lemma_eligible_props(
    row: Seq<(NodeId, PeerStats)>,
    self_id: NodeId,
    m: Map<NodeId, u64>,
)
    ensures
        forall|t: (u64, u64, u64)|
            #[trigger] eligible_triples(row, self_id, m).contains(t) ==> t.2 != self_id && exists|
                k: int,
            | 0 <= k < row.len() && row[k].0 == t.2,
    decreases row.len(),
{
    if row.len() > 0 {
        lemma_eligible_props(row.drop_last(), self_id, m);
        assert forall|t: (u64, u64, u64)|
            #[trigger] eligible_triples(row, self_id, m).contains(t) implies t.2 != self_id
            && exists|k: int| 0 <= k < row.len() && row[k].0 == t.2 by {
            let e = eligible_triples(row, self_id, m);
            let rest = eligible_triples(row.drop_last(), self_id, m);
            let p = row.last();
            let w = choose|q: int| 0 <= q < e.len() && e[q] == t;
            if p.0 != self_id && w == e.len() - 1 {
                assert(t.2 == p.0);
                assert(row[row.len() - 1].0 == t.2);
            } else {
                assert(rest.contains(t));
                let k = choose|k: int| 0 <= k < row.drop_last().len() && row.drop_last()[k].0 == t.2;
                assert(row[k].0 == t.2);
            }
        }
    }
}

/// The prune walk over the best-first ranking: keep peers while the kept
/// stake is still below the threshold share of the total active stake, or
/// while fewer than `min_ingress` peers are kept; everyone after that is
/// proposed for pruning.
pub open spec fn prune_walk(
    sorted: Seq<(u64, u64, u64)>,
    i: int,
    kept_stake: u64,
    kept: int,
    total: u64,
    pct: u64,
    min_ingress: int,
) -> Seq<NodeId>
    decreases sorted.len() - i
        when 0 <= i <= sorted.len()
{
    if i >= sorted.len() {
        Seq::empty()
    } else if kept_stake * 100 < total * pct || kept < min_ingress {
        prune_walk(
            sorted,
            i + 1,
            sat_add64(kept_stake, (u64::MAX - sorted[i].1) as u64),
            kept + 1,
            total,
            pct,
            min_ingress,
        )
    } else {
        sorted.subrange(i, sorted.len() as int).map_values(|t: (u64, u64, u64)| t.2)
    }
}

/// Index of `peer` in one origin's row, if recorded.
fn find_peer(row: &Vec<(NodeId, PeerStats)>, peer: NodeId) -> (r: Option<usize>)
    ensures
        match r {
            Some(j) => j < row@.len() && row@[j as int].0 == peer,
            None => forall|q: int| 0 <= q < row@.len() ==> (#[trigger] row@[q]).0 != peer,
        },
{
    let m = row.len();
    let mut j: usize = 0;
    while j < m
        invariant
            j <= m,
            m == row@.len(),
            forall|q: int| 0 <= q < j ==> (#[trigger] row@[q]).0 != peer,
        decreases m - j,
    {
        if row[j].0 == peer {
            return Some(j);
        }
        j += 1;
    }
    None
}

/// The exact prune proposal for one origin: nothing when the origin is
/// unknown or fewer than `min_ingress` peers are recorded; otherwise the
/// prune walk over the unique best-first ranking of the recorded peers.
pub open spec fn prune_spec(
    rows: Seq<(NodeId, Seq<(NodeId, PeerStats)>)>,
    self_id: NodeId,
    origin: NodeId,
    pct: u64,
    min_ingress: int,
    total: u64,
    m: Map<NodeId, u64>,
) -> Seq<NodeId> {
    if !assoc_has(rows, origin) {
        Seq::empty()
    } else {
        let row = rows[assoc_idx(rows, origin)].1;
        let elig = eligible_triples(row, self_id, m);
        if elig.len() < min_ingress {
            Seq::empty()
        } else {
            prune_walk(sorted_triples(elig), 0, 0, 0, total, pct, min_ingress)
        }
    }
}

/// Bounded per-origin ingress cache, most recently touched origin last.
pub struct ReceivedCache {
    rows: Vec<(NodeId, Vec<(NodeId, PeerStats)>)>,
    capacity: usize,
}

impl ReceivedCache {
    /// The rows, oldest first: per origin, the recorded per-peer counters.
    pub closed spec fn rows_seq(&self) -> Seq<(NodeId, Seq<(NodeId, PeerStats)>)> {
        self.rows@.map_values(|r: (NodeId, Vec<(NodeId, PeerStats)>)| (r.0, r.1@))
    }

    pub closed spec fn cap(&self) -> int {
        self.capacity as int
    }

    /// Origins are distinct, each row's peers are distinct, and the row count
    /// stays within the capacity.
    pub closed spec fn wf(&self) -> bool {
        &&& self.capacity >= 1
        &&& self.rows@.len() <= self.capacity
        &&& forall|i: int, j: int|
            0 <= i < j < self.rows@.len() ==> (#[trigger] self.rows@[i]).0 != (
            #[trigger] self.rows@[j]).0
        &&& forall|i: int, a: int, b: int|
            0 <= i < self.rows@.len() && 0 <= a < b < (#[trigger] self.rows@[i]).1@.len() ==> (
            #[trigger] self.rows@[i].1@[a]).0 != (#[trigger] self.rows@[i].1@[b]).0
    }

    /// The origin rows, as the public view sees them, have distinct keys.
    pub proof fn lemma_rows_distinct(&self)
        requires
            self.wf(),
        ensures
            forall|a: int, b: int|
                0 <= a < b < self.rows_seq().len() ==> (#[trigger] self.rows_seq()[a]).0 != (
                #[trigger] self.rows_seq()[b]).0,
    {
        assert forall|a: int, b: int| 0 <= a < b < self.rows_seq().len() implies (
        #[trigger] self.rows_seq()[a]).0 != (#[trigger] self.rows_seq()[b]).0 by {
            assert(self.rows_seq()[a].0 == self.rows@[a].0);
            assert(self.rows_seq()[b].0 == self.rows@[b].0);
        }
    }

    /// Index of the row of `origin`, if present.
    fn find_origin(&self, origin: NodeId) -> (r: Option<usize>)
        ensures
            match r {
                Some(i) => i < self.rows@.len() && self.rows@[i as int].0 == origin,
                None => forall|q: int|
                    0 <= q < self.rows@.len() ==> (#[trigger] self.rows@[q]).0 != origin,
            },
    {
        let n = self.rows.len();
        let mut i: usize = 0;
        while i < n
            invariant
                i <= n,
                n == self.rows@.len(),
                forall|q: int| 0 <= q < i ==> (#[trigger] self.rows@[q]).0 != origin,
            decreases n - i,
        {
            if self.rows[i].0 == origin {
                return Some(i);
            }
            i += 1;
        }
        None
    }

    /// No row is recorded under `origin`.
    proof fn lemma_no_origin(&self, origin: NodeId)
        requires
            forall|q: int| 0 <= q < self.rows@.len() ==> (#[trigger] self.rows@[q]).0 != origin,
        ensures
            !assoc_has(self.rows_seq(), origin),
    {
        assert forall|q: int| 0 <= q < self.rows_seq().len() implies (
        #[trigger] self.rows_seq()[q]).0 != origin by {
            assert(self.rows_seq()[q].0 == self.rows@[q].0);
        }
        lemma_assoc_none(self.rows_seq(), origin);
    }

    pub fn new(capacity: usize) -> (c: Self)
        requires
            capacity >= 1,
        ensures
            c.wf(),
            c.rows_seq() == Seq::<(NodeId, Seq<(NodeId, PeerStats)>)>::empty(),
            c.cap() == capacity,
    {
        let c = ReceivedCache { rows: Vec::new(), capacity };
        proof {
            assert(c.rows_seq() =~= Seq::<(NodeId, Seq<(NodeId, PeerStats)>)>::empty());
        }
        c
    }

    /// Records one arrival of an update minted by `origin`, delivered by
    /// `peer`, with the given duplicate weight.
    pub fn record(&mut self, origin: NodeId, peer: NodeId, dup_weight: u64)
        requires
            old(self).wf(),
        ensures
            final(self).wf(),
            final(self).cap() == old(self).cap(),
            final(self).rows_seq() == record_model(
                old(self).rows_seq(),
                origin,
                peer,
                dup_weight,
                old(self).cap(),
            ),
    {
        let ghost rs0 = self.rows_seq();
        match self.find_origin(origin) {
            Some(i) => {
                proof {
                    self.lemma_rows_distinct();
                    assert(rs0[i as int] == (self.rows@[i as int].0, self.rows@[i as int].1@));
                    lemma_assoc_at(rs0, origin, i as int);
                }
                let mut pair = self.rows.remove(i);
                let ghost row0 = pair.1@;
                proof {
                    assert(row0 == rs0[i as int].1);
                    assert forall|a: int, b: int| 0 <= a < b < row0.len() implies (
                    #[trigger] row0[a]).0 != (#[trigger] row0[b]).0 by {
                        assert(old(self).rows@[i as int].1@ == row0);
                    }
                }
                match find_peer(&pair.1, peer) {
                    Some(j) => {
                        let st = pair.1[j].1;
                        let c2 = if u64::MAX - st.count < 1 {
                            u64::MAX
                        } else {
                            st.count + 1
                        };
                        let w2 = if u64::MAX - st.weight < dup_weight {
                            u64::MAX
                        } else {
                            st.weight + dup_weight
                        };
                        proof {
                            lemma_assoc_at(row0, peer, j as int);
                        }
                        pair.1[j] = (peer, PeerStats { count: c2, weight: w2 });
                        proof {
                            assert(pair.1@ =~= record_row(row0, peer, dup_weight));
                        }
                    },
                    None => {
                        proof {
                            lemma_assoc_none(row0, peer);
                        }
                        pair.1.push((peer, PeerStats { count: 1, weight: dup_weight }));
                        proof {
                            assert(pair.1@ =~= record_row(row0, peer, dup_weight));
                        }
                    },
                }
                let ghost newrow = pair.1@;
                self.rows.push(pair);
                proof {
                    let s_old = old(self).rows@;
                    s_old.remove_ensures(i as int);
                    rs0.remove_ensures(i as int);
                    assert forall|q: int| 0 <= q < self.rows_seq().len() implies #[trigger] self.rows_seq()[q]
                        == (self.rows@[q].0, self.rows@[q].1@) by {}
                    assert(self.rows_seq() =~~= record_model(
                        rs0,
                        origin,
                        peer,
                        dup_weight,
                        old(self).cap(),
                    ));
                    assert forall|a: int, b: int|
                        0 <= a < b < self.rows@.len() implies (#[trigger] self.rows@[a]).0 != (
                    #[trigger] self.rows@[b]).0 by {
                        if b < self.rows@.len() - 1 {
                            let a0 = if a < i as int {
                                a
                            } else {
                                a + 1
                            };
                            let b0 = if b < i as int {
                                b
                            } else {
                                b + 1
                            };
                            assert(self.rows@[a].0 == s_old[a0].0);
                            assert(self.rows@[b].0 == s_old[b0].0);
                        } else {
                            let a0 = if a < i as int {
                                a
                            } else {
                                a + 1
                            };
                            assert(self.rows@[a].0 == s_old[a0].0);
                            assert(self.rows@[b].0 == origin);
                        }
                    }
                    assert forall|ii: int, a: int, b: int|
                        0 <= ii < self.rows@.len() && 0 <= a < b < (
                    #[trigger] self.rows@[ii]).1@.len() implies (#[trigger] self.rows@[ii].1@[a]).0
                        != (#[trigger] self.rows@[ii].1@[b]).0 by {
                        if ii < self.rows@.len() - 1 {
                            let i0 = if ii < i as int {
                                ii
                            } else {
                                ii + 1
                            };
                            assert(self.rows@[ii] == s_old[i0]);
                        } else {
                            assert(self.rows@[ii].1@ == newrow);
                            if assoc_has(row0, peer) {
                                let jj = assoc_idx(row0, peer);
                                assert(newrow == row0.update(
                                    jj,
                                    (peer, bump_stats(row0[jj].1, dup_weight)),
                                ));
                            }
                        }
                    }
                }
            },
            None => {
                proof {
                    self.lemma_no_origin(origin);
                }
                let ghost evicted = self.rows@.len() >= self.capacity;
                if self.rows.len() >= self.capacity {
                    let ghost before = self.rows@;
                    let _ = self.rows.remove(0);
                    proof {
                        before.remove_ensures(0);
                        rs0.remove_ensures(0);
                    }
                }
                let mut row: Vec<(NodeId, PeerStats)> = Vec::new();
                row.push((peer, PeerStats { count: 1, weight: dup_weight }));
                self.rows.push((origin, row));
                proof {
                    let s_old = old(self).rows@;
                    assert forall|q: int| 0 <= q < self.rows_seq().len() implies #[trigger] self.rows_seq()[q]
                        == (self.rows@[q].0, self.rows@[q].1@) by {}
                    assert(self.rows_seq() =~~= record_model(rs0, origin, peer, dup_weight, old(
                        self,
                    ).cap()));
                    let off: int = if evicted {
                        1
                    } else {
                        0
                    };
                    assert forall|a: int, b: int|
                        0 <= a < b < self.rows@.len() implies (#[trigger] self.rows@[a]).0 != (
                    #[trigger] self.rows@[b]).0 by {
                        if b < self.rows@.len() - 1 {
                            assert(self.rows@[a].0 == s_old[a + off].0);
                            assert(self.rows@[b].0 == s_old[b + off].0);
                        } else {
                            assert(self.rows@[a].0 == s_old[a + off].0);
                            assert(self.rows@[b].0 == origin);
                        }
                    }
                    assert forall|ii: int, a: int, b: int|
                        0 <= ii < self.rows@.len() && 0 <= a < b < (
                    #[trigger] self.rows@[ii]).1@.len() implies (#[trigger] self.rows@[ii].1@[a]).0
                        != (#[trigger] self.rows@[ii].1@[b]).0 by {
                        if ii < self.rows@.len() - 1 {
                            assert(self.rows@[ii] == s_old[ii + off]);
                        }
                    }
                }
            },
        }
    }

    /// The recorded counters for `peer` under `origin`, if any.
    pub fn stats_of(&self, origin: NodeId, peer: NodeId) -> (r: Option<PeerStats>)
        requires
            self.wf(),
        ensures
            r == stats_model(self.rows_seq(), origin, peer),
    {
        match self.find_origin(origin) {
            Some(i) => {
                proof {
                    self.lemma_rows_distinct();
                    assert(self.rows_seq()[i as int] == (
                        self.rows@[i as int].0,
                        self.rows@[i as int].1@,
                    ));
                    lemma_assoc_at(self.rows_seq(), origin, i as int);
                }
                let ghost row_g = self.rows@[i as int].1@;
                match find_peer(&self.rows[i].1, peer) {
                    Some(j) => {
                        proof {
                            assert forall|a: int, b: int| 0 <= a < b < row_g.len() implies (
                            #[trigger] row_g[a]).0 != (#[trigger] row_g[b]).0 by {
                                assert(self.rows@[i as int].1@ == row_g);
                            }
                            lemma_assoc_at(row_g, peer, j as int);
                        }
                        Some(self.rows[i].1[j].1)
                    },
                    None => {
                        proof {
                            lemma_assoc_none(row_g, peer);
                        }
                        None
                    },
                }
            },
            None => {
                proof {
                    self.lemma_no_origin(origin);
                }
                None
            },
        }
    }

    /// Proposes the peers to instruct "stop forwarding values minted by
    /// `origin`": ranks the recorded peers best first (lowest duplicate
    /// weight, then highest stake), keeps peers while the kept stake is below
    /// `stake_threshold_pct` percent of the total active stake or while fewer
    /// than `min_ingress_nodes` are kept, and proposes the rest. Returns
    /// nothing when fewer than `min_ingress_nodes` peers are recorded.
    pub fn prune(
        &self,
        self_id: NodeId,
        origin: NodeId,
        stake_threshold_pct: u64,
        min_ingress_nodes: usize,
        stakes: &Stakes,
    ) -> (r: Vec<NodeId>)
        requires
            self.wf(),
            stakes.wf(),
            stake_threshold_pct <= 100,
        ensures
            r@ == prune_spec(
                self.rows_seq(),
                self_id,
                origin,
                stake_threshold_pct,
                min_ingress_nodes as int,
                sat_sum(stakes.entry_seq()),
                stakes@,
            ),
            forall|q: int| 0 <= q < r@.len() ==> r@[q] != self_id,
    {
        let i = match self.find_origin(origin) {
            Some(i) => i,
            None => {
                proof {
                    self.lemma_no_origin(origin);
                }
                return Vec::new();
            },
        };
        proof {
            self.lemma_rows_distinct();
            assert(self.rows_seq()[i as int] == (self.rows@[i as int].0, self.rows@[i as int].1@));
            lemma_assoc_at(self.rows_seq(), origin, i as int);
        }
        let ghost row_g = self.rows@[i as int].1@;
        let n = self.rows.len();
        let m = self.rows[i].1.len();
        let mut trips: Vec<(u64, u64, u64)> = Vec::new();
        let mut k: usize = 0;
        while k < m
            invariant
                k <= m,
                i < n,
                n == self.rows@.len(),
                m == row_g.len(),
                row_g == self.rows@[i as int].1@,
                self.wf(),
                stakes.wf(),
                trips@ == eligible_triples(row_g.take(k as int), self_id, stakes@),
            decreases m - k,
        {
            proof {
                assert(row_g.take(k + 1).drop_last() =~= row_g.take(k as int));
                assert(row_g.take(k + 1).last() == row_g[k as int]);
            }
            let (p, st) = self.rows[i].1[k];
            if p != self_id {
                let stake = stakes.get(p);
                trips.push((st.weight, u64::MAX - stake, p));
            }
            k += 1;
        }
        proof {
            assert(row_g.take(m as int) =~= row_g);
        }
        let ghost elig = eligible_triples(row_g, self_id, stakes@);
        if trips.len() < min_ingress_nodes {
            let empty_out: Vec<NodeId> = Vec::new();
            return empty_out;
        }
        let total = stakes.total();
        let sorted = sort_triples(trips);
        proof {
            lemma_eligible_props(row_g, self_id, stakes@);
            lemma_sorted_triples_is(elig, sorted@);
        }
        let len = sorted.len();
        let mut idx: usize = 0;
        let mut kept_stake: u64 = 0;
        let mut kept: usize = 0;
        loop
            invariant
                idx <= len,
                len == sorted@.len(),
                kept <= idx,
                total <= u64::MAX,
                stake_threshold_pct <= 100,
                prune_walk(
                    sorted@,
                    idx as int,
                    kept_stake,
                    kept as int,
                    total,
                    stake_threshold_pct,
                    min_ingress_nodes as int,
                ) == prune_walk(
                    sorted@,
                    0,
                    0,
                    0,
                    total,
                    stake_threshold_pct,
                    min_ingress_nodes as int,
                ),
            ensures
                idx <= len == sorted@.len(),
                prune_walk(
                    sorted@,
                    idx as int,
                    kept_stake,
                    kept as int,
                    total,
                    stake_threshold_pct,
                    min_ingress_nodes as int,
                ) == prune_walk(
                    sorted@,
                    0,
                    0,
                    0,
                    total,
                    stake_threshold_pct,
                    min_ingress_nodes as int,
                ),
                idx == len || (!((kept_stake as int) * 100 < (total as int) * (
                stake_threshold_pct as int)) && !(kept < min_ingress_nodes)),
            decreases len - idx,
        {
            if idx >= len {
                break ;
            }
            proof {
                assert((total as int) * (stake_threshold_pct as int) <= (u64::MAX as int) * 100)
                    by (nonlinear_arith)
                    requires
                        total <= u64::MAX,
                        stake_threshold_pct <= 100,
                ;
            }
            let keep = (kept_stake as u128) * 100 < (total as u128) * (stake_threshold_pct as u128)
                || kept < min_ingress_nodes;
            if !keep {
                break ;
            }
            let stk = u64::MAX - sorted[idx].1;
            let new_kept_stake = if u64::MAX - kept_stake < stk {
                u64::MAX
            } else {
                kept_stake + stk
            };
            proof {
                assert(prune_walk(
                    sorted@,
                    idx as int,
                    kept_stake,
                    kept as int,
                    total,
                    stake_threshold_pct,
                    min_ingress_nodes as int,
                ) == prune_walk(
                    sorted@,
                    idx + 1,
                    new_kept_stake,
                    kept + 1,
                    total,
                    stake_threshold_pct,
                    min_ingress_nodes as int,
                ));
            }
            kept_stake = new_kept_stake;
            kept += 1;
            idx += 1;
        }
        let ghost tail = sorted@.subrange(idx as int, len as int).map_values(
            |t: (u64, u64, u64)| t.2,
        );
        proof {
            if idx == len {
                assert(sorted@.subrange(idx as int, len as int) =~= Seq::<(u64, u64, u64)>::empty());
                assert(tail =~= Seq::<NodeId>::empty());
                assert(prune_walk(
                    sorted@,
                    idx as int,
                    kept_stake,
                    kept as int,
                    total,
                    stake_threshold_pct,
                    min_ingress_nodes as int,
                ) =~= tail);
            } else {
                assert(prune_walk(
                    sorted@,
                    idx as int,
                    kept_stake,
                    kept as int,
                    total,
                    stake_threshold_pct,
                    min_ingress_nodes as int,
                ) == tail);
            }
        }
        let mut out: Vec<NodeId> = Vec::new();
        let mut j: usize = idx;
        while j < len
            invariant
                idx <= j <= len,
                len == sorted@.len(),
                out@ == sorted@.subrange(idx as int, j as int).map_values(
                    |t: (u64, u64, u64)| t.2,
                ),
                forall|q: int| 0 <= q < out@.len() ==> out@[q] != self_id,
                forall|t: (u64, u64, u64)| sorted@.contains(t) <==> elig.contains(t),
                forall|t: (u64, u64, u64)| #[trigger] elig.contains(t) ==> t.2 != self_id,
            decreases len - j,
        {
            let t = sorted[j];
            proof {
                assert(sorted@.contains(sorted@[j as int]));
                assert(elig.contains(sorted@[j as int]));
                assert(sorted@[j as int].2 != self_id);
                assert(sorted@.subrange(idx as int, j + 1) =~= sorted@.subrange(
                    idx as int,
                    j as int,
                ).push(sorted@[j as int]));
                assert(sorted@.subrange(idx as int, j + 1).map_values(|t: (u64, u64, u64)| t.2)
                    =~= sorted@.subrange(idx as int, j as int).map_values(
                    |t: (u64, u64, u64)| t.2,
                ).push(sorted@[j as int].2));
            }
            out.push(t.2);
            j += 1;
        }
        proof {
            assert(out@ == tail);
        }
        out
    }
}

} // verus!
