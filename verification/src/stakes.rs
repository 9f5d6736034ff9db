//! The immutable stake snapshot shared by every node: a finite map from
//! member identity to stake weight. Members absent from the map count as
//! stake 0.

use crate::NodeId;
use vstd::prelude::*;

verus! {

/// Stake of `id` under map `m`, defaulting to 0 for absent members.
pub open spec fn stake_of(m: Map<NodeId, u64>, id: NodeId) -> u64 {
    if m.contains_key(id) {
        m[id]
    } else {
        0
    }
}

/// `u64` addition that saturates at the maximum.
pub open spec fn sat_add64(a: u64, b: u64) -> u64 {
    if a + b > u64::MAX {
        u64::MAX
    } else {
        (a + b) as u64
    }
}

/// Saturating sum of the stakes in an association list.
pub open spec fn sat_sum(s: Seq<(NodeId, u64)>) -> u64
    decreases s.len(),
{
    if s.len() == 0 {
        0
    } else {
        sat_add64(sat_sum(s.drop_last()), s.last().1)
    }
}

/// Per-member aggregate stake of a listing that may name one member several
/// times: later occurrences add (saturating) onto earlier ones.
pub open spec fn aggregate_model(pairs: Seq<(NodeId, u64)>) -> Map<NodeId, u64>
    decreases pairs.len(),
{
    if pairs.len() == 0 {
        Map::empty()
    } else {
        let m = aggregate_model(pairs.drop_last());
        m.insert(pairs.last().0, sat_add64(stake_of(m, pairs.last().0), pairs.last().1))
    }
}

/// Finite stake map, stored as an association list with distinct keys.
pub struct Stakes {
    entries: Vec<(NodeId, u64)>,
    model: Ghost<Map<NodeId, u64>>,
}

impl View for Stakes {
    type V = Map<NodeId, u64>;

    closed spec fn view(&self) -> Map<NodeId, u64> {
        self.model@
    }
}

impl Stakes {
    /// The underlying association list; one entry per member of the map.
    pub closed spec fn entry_seq(&self) -> Seq<(NodeId, u64)> {
        self.entries@
    }

    /// The association list and the map agree and the keys are distinct.
    pub closed spec fn wf(&self) -> bool {
        let s = self.entries@;
        &&& forall|i: int|
            0 <= i < s.len() ==> self.model@.contains_key((#[trigger] s[i]).0) && self.model@[s[i].0]
                == s[i].1
        &&& forall|k: NodeId|
            #[trigger] self.model@.contains_key(k) ==> exists|i: int|
                0 <= i < s.len() && s[i].0 == k
        &&& forall|i: int, j: int|
            0 <= i < j < s.len() ==> (#[trigger] s[i]).0 != (#[trigger] s[j]).0
    }

    /// What well-formedness gives a caller: the entry list enumerates the map.
    pub proof fn lemma_inv(&self)
        requires
            self.wf(),
        ensures
            forall|i: int|
                0 <= i < self.entry_seq().len() ==> self@.contains_key(
                    (#[trigger] self.entry_seq()[i]).0,
                ) && self@[self.entry_seq()[i].0] == self.entry_seq()[i].1,
            forall|k: NodeId|
                #[trigger] self@.contains_key(k) ==> exists|i: int|
                    0 <= i < self.entry_seq().len() && self.entry_seq()[i].0 == k,
            forall|i: int, j: int|
                0 <= i < j < self.entry_seq().len() ==> (#[trigger] self.entry_seq()[i]).0 != (
                #[trigger] self.entry_seq()[j]).0,
    {
        assert forall|k: NodeId| #[trigger] self@.contains_key(k) implies exists|i: int|
            0 <= i < self.entry_seq().len() && self.entry_seq()[i].0 == k by {
            let i = choose|i: int| 0 <= i < self.entries@.len() && self.entries@[i].0 == k;
            assert(0 <= i < self.entry_seq().len() && self.entry_seq()[i].0 == k);
        }
    }

    pub fn new() -> (s: Self)
        ensures
            s.wf(),
            s@ == Map::<NodeId, u64>::empty(),
            s.entry_seq() == Seq::<(NodeId, u64)>::empty(),
    {
        Stakes { entries: Vec::new(), model: Ghost(Map::empty()) }
    }

    /// Sets the stake of `id`, replacing any earlier value.
    pub fn set_stake(&mut self, id: NodeId, stake: u64)
        requires
            old(self).wf(),
        ensures
            final(self).wf(),
            final(self)@ == old(self)@.insert(id, stake),
    {
        let n = self.entries.len();
        let mut i: usize = 0;
        while i < n
            invariant
                i <= n,
                n == self.entries@.len(),
                *self == *old(self),
                old(self).wf(),
                forall|j: int| 0 <= j < i ==> (#[trigger] self.entries@[j]).0 != id,
            decreases n - i,
        {
            if self.entries[i].0 == id {
                self.entries[i] = (id, stake);
                self.model = Ghost(self.model@.insert(id, stake));
                proof {
                    let s_old = old(self).entries@;
                    let s_new = self.entries@;
                    assert(s_new =~= s_old.update(i as int, (id, stake)));
                    assert forall|k: NodeId| #[trigger] self.model@.contains_key(k) implies exists|
                        j: int,
                    | 0 <= j < s_new.len() && s_new[j].0 == k by {
                        if k == id {
                            assert(s_new[i as int].0 == k);
                        } else {
                            let j = choose|j: int| 0 <= j < s_old.len() && s_old[j].0 == k;
                            assert(s_new[j].0 == k);
                        }
                    }
                }
                return ;
            }
            i += 1;
        }
        self.entries.push((id, stake));
        self.model = Ghost(self.model@.insert(id, stake));
        proof {
            let s_old = old(self).entries@;
            let s_new = self.entries@;
            assert(s_new =~= s_old.push((id, stake)));
            assert(!old(self).model@.contains_key(id));
            assert forall|k: NodeId| #[trigger] self.model@.contains_key(k) implies exists|j: int|
                0 <= j < s_new.len() && s_new[j].0 == k by {
                if k == id {
                    assert(s_new[s_new.len() - 1].0 == k);
                } else {
                    let j = choose|j: int| 0 <= j < s_old.len() && s_old[j].0 == k;
                    assert(s_new[j].0 == k);
                }
            }
            assert forall|a: int, b: int| 0 <= a < b < s_new.len() implies (
            #[trigger] s_new[a]).0 != (#[trigger] s_new[b]).0 by {
                if b == s_new.len() - 1 {
                    assert(old(self).model@.contains_key(s_new[a].0));
                }
            }
        }
    }

    /// Stake of `id`; members absent from the map have stake 0.
    pub fn get(&self, id: NodeId) -> (r: u64)
        requires
            self.wf(),
        ensures
            r == stake_of(self@, id),
    {
        let n = self.entries.len();
        let mut i: usize = 0;
        while i < n
            invariant
                i <= n,
                n == self.entries@.len(),
                self.wf(),
                forall|j: int| 0 <= j < i ==> (#[trigger] self.entries@[j]).0 != id,
            decreases n - i,
        {
            if self.entries[i].0 == id {
                return self.entries[i].1;
            }
            i += 1;
        }
        proof {
            if self.model@.contains_key(id) {
                let j = choose|j: int|
                    0 <= j < self.entries@.len() && self.entries@[j].0 == id;
                assert(false);
            }
        }
        0
    }

    /// Whether `id` is a member of the map.
    pub fn contains(&self, id: NodeId) -> (r: bool)
        requires
            self.wf(),
        ensures
            r == self@.contains_key(id),
    {
        let n = self.entries.len();
        let mut i: usize = 0;
        while i < n
            invariant
                i <= n,
                n == self.entries@.len(),
                self.wf(),
                forall|j: int| 0 <= j < i ==> (#[trigger] self.entries@[j]).0 != id,
            decreases n - i,
        {
            if self.entries[i].0 == id {
                return true;
            }
            i += 1;
        }
        proof {
            if self.model@.contains_key(id) {
                let j = choose|j: int|
                    0 <= j < self.entries@.len() && self.entries@[j].0 == id;
                assert(false);
            }
        }
        false
    }

    pub fn len(&self) -> (r: usize)
        ensures
            r == self.entry_seq().len(),
    {
        self.entries.len()
    }

    pub fn key_at(&self, i: usize) -> (r: NodeId)
        requires
            i < self.entry_seq().len(),
        ensures
            r == self.entry_seq()[i as int].0,
    {
        self.entries[i].0
    }

    /// Total active stake of the cluster, saturating at `u64::MAX`.
    pub fn total(&self) -> (r: u64)
        ensures
            r == sat_sum(self.entry_seq()),
    {
        let n = self.entries.len();
        let mut acc: u64 = 0;
        let mut i: usize = 0;
        while i < n
            invariant
                i <= n,
                n == self.entries@.len(),
                acc == sat_sum(self.entries@.take(i as int)),
            decreases n - i,
        {
            let x = self.entries[i].1;
            proof {
                assert(self.entries@.take(i + 1).drop_last() =~= self.entries@.take(i as int));
                assert(self.entries@.take(i + 1).last() == self.entries@[i as int]);
            }
            acc = if u64::MAX - acc < x {
                u64::MAX
            } else {
                acc + x
            };
            i += 1;
        }
        proof {
            assert(self.entries@.take(n as int) =~= self.entries@);
        }
        acc
    }
}

/// Builds the stake snapshot from a cluster listing that may name one member
/// several times (one record per vote account): the stakes of a member's
/// records add up, saturating at `u64::MAX`.
pub fn aggregate_stakes(pairs: &Vec<(NodeId, u64)>) -> (s: Stakes)
    ensures
        s.wf(),
        s@ == aggregate_model(pairs@),
{
    let n = pairs.len();
    let mut s = Stakes::new();
    let mut i: usize = 0;
    while i < n
        invariant
            i <= n,
            n == pairs@.len(),
            s.wf(),
            s@ == aggregate_model(pairs@.take(i as int)),
        decreases n - i,
    {
        let (id, stake) = pairs[i];
        let cur = s.get(id);
        let added = if u64::MAX - cur < stake {
            u64::MAX
        } else {
            cur + stake
        };
        proof {
            assert(pairs@.take(i + 1).drop_last() =~= pairs@.take(i as int));
            assert(pairs@.take(i + 1).last() == pairs@[i as int]);
        }
        s.set_stake(id, added);
        i += 1;
    }
    proof {
        assert(pairs@.take(n as int) =~= pairs@);
    }
    s
}

} // verus!
