//! The CRDS table: a finite map from slot key to versioned entry, with the
//! protocol's upsert semantics. For any key the stored ordinal never
//! decreases, and the duplicate count resets whenever the ordinal advances.

use crate::{CrdsEntry, CrdsKey, UpsertError};
use vstd::prelude::*;

verus! {

/// Saturating `u8` increment.
pub open spec fn sat_inc8(d: u8) -> u8 {
    if d == 255 {
        255
    } else {
        (d + 1) as u8
    }
}

/// The upsert semantics, as a function of the table state:
/// - absent key, or a strictly newer ordinal: store `{ordinal, num_dups: 0}`
///   and accept;
/// - the stored ordinal itself: bump the duplicate count (saturating) and
///   report `Duplicate`;
/// - a strictly older ordinal: leave the table alone and report `Outdated`.
pub open spec fn upsert_model(m: Map<CrdsKey, CrdsEntry>, key: CrdsKey, ordinal: u64) -> (
    Map<CrdsKey, CrdsEntry>,
    Result<(), UpsertError>,
) {
    if !m.contains_key(key) || m[key].ordinal < ordinal {
        (m.insert(key, CrdsEntry { ordinal, num_dups: 0 }), Ok(()))
    } else if m[key].ordinal == ordinal {
        let d = sat_inc8(m[key].num_dups);
        (m.insert(key, CrdsEntry { ordinal, num_dups: d }), Err(UpsertError::Duplicate(d)))
    } else {
        (m, Err(UpsertError::Outdated))
    }
}

/// Upsert never lowers an ordinal and never drops a key.
pub proof fn lemma_upsert_monotonic(m: Map<CrdsKey, CrdsEntry>, key: CrdsKey, ordinal: u64)
    ensures
        forall|k: CrdsKey|
            m.contains_key(k) ==> upsert_model(m, key, ordinal).0.contains_key(k) && (
            #[trigger] upsert_model(m, key, ordinal).0[k]).ordinal >= m[k].ordinal,
{
}

/// Upsert is deterministic: identical table states, key and ordinal give an
/// identical result and post-state.
pub proof fn lemma_upsert_deterministic(
    m1: Map<CrdsKey, CrdsEntry>,
    m2: Map<CrdsKey, CrdsEntry>,
    key: CrdsKey,
    ordinal: u64,
)
    requires
        m1 == m2,
    ensures
        upsert_model(m1, key, ordinal) == upsert_model(m2, key, ordinal),
{
}

/// The CRDS table, stored as an association list with distinct keys.
pub struct CrdsTable {
    entries: Vec<(CrdsKey, CrdsEntry)>,
    model: Ghost<Map<CrdsKey, CrdsEntry>>,
}

impl View for CrdsTable {
    type V = Map<CrdsKey, CrdsEntry>;

    closed spec fn view(&self) -> Map<CrdsKey, CrdsEntry> {
        self.model@
    }
}

impl CrdsTable {
    /// The underlying association list; one entry per key of the map.
    pub closed spec fn entry_seq(&self) -> Seq<(CrdsKey, CrdsEntry)> {
        self.entries@
    }

    /// The association list and the map agree and the keys are distinct.
    pub closed spec fn wf(&self) -> bool {
        let s = self.entries@;
        &&& forall|i: int|
            0 <= i < s.len() ==> self.model@.contains_key((#[trigger] s[i]).0) && self.model@[s[i].0]
                == s[i].1
        &&& forall|k: CrdsKey|
            #[trigger] self.model@.contains_key(k) ==> exists|i: int|
                0 <= i < s.len() && s[i].0 == k
        &&& forall|i: int, j: int|
            0 <= i < j < s.len() ==> (#[trigger] s[i]).0 != (#[trigger] s[j]).0
    }

    /// What well-formedness gives a caller: the entry list enumerates the map.
    pub proof fn lemma_inv(&self)
        requires
            self.wf(),
        ensures
            forall|i: int|
                0 <= i < self.entry_seq().len() ==> self@.contains_key(
                    (#[trigger] self.entry_seq()[i]).0,
                ) && self@[self.entry_seq()[i].0] == self.entry_seq()[i].1,
            forall|k: CrdsKey|
                #[trigger] self@.contains_key(k) ==> exists|i: int|
                    0 <= i < self.entry_seq().len() && self.entry_seq()[i].0 == k,
            forall|i: int, j: int|
                0 <= i < j < self.entry_seq().len() ==> (#[trigger] self.entry_seq()[i]).0 != (
                #[trigger] self.entry_seq()[j]).0,
    {
        assert forall|k: CrdsKey| #[trigger] self@.contains_key(k) implies exists|i: int|
            0 <= i < self.entry_seq().len() && self.entry_seq()[i].0 == k by {
            let i = choose|i: int| 0 <= i < self.entries@.len() && self.entries@[i].0 == k;
            assert(0 <= i < self.entry_seq().len() && self.entry_seq()[i].0 == k);
        }
    }

    pub fn new() -> (t: Self)
        ensures
            t.wf(),
            t@ == Map::<CrdsKey, CrdsEntry>::empty(),
            t.entry_seq() == Seq::<(CrdsKey, CrdsEntry)>::empty(),
    {
        CrdsTable { entries: Vec::new(), model: Ghost(Map::empty()) }
    }

    /// The entry stored under `key`, if any.
    pub fn get(&self, key: CrdsKey) -> (r: Option<CrdsEntry>)
        requires
            self.wf(),
        ensures
            r == if self@.contains_key(key) {
                Some(self@[key])
            } else {
                None::<CrdsEntry>
            },
    {
        let n = self.entries.len();
        let mut i: usize = 0;
        while i < n
            invariant
                i <= n,
                n == self.entries@.len(),
                self.wf(),
                forall|j: int| 0 <= j < i ==> (#[trigger] self.entries@[j]).0 != key,
            decreases n - i,
        {
            if self.entries[i].0 == key {
                return Some(self.entries[i].1);
            }
            i += 1;
        }
        proof {
            if self.model@.contains_key(key) {
                let j = choose|j: int|
                    0 <= j < self.entries@.len() && self.entries@[j].0 == key;
                assert(false);
            }
        }
        None
    }

    /// Stores `entry` under `key`, replacing any earlier entry.
    pub fn set(&mut self, key: CrdsKey, entry: CrdsEntry)
        requires
            old(self).wf(),
        ensures
            final(self).wf(),
            final(self)@ == old(self)@.insert(key, entry),
    {
        let n = self.entries.len();
        let mut i: usize = 0;
        while i < n
            invariant
                i <= n,
                n == self.entries@.len(),
                *self == *old(self),
                old(self).wf(),
                forall|j: int| 0 <= j < i ==> (#[trigger] self.entries@[j]).0 != key,
            decreases n - i,
        {
            if self.entries[i].0 == key {
                self.entries[i] = (key, entry);
                self.model = Ghost(self.model@.insert(key, entry));
                proof {
                    let s_old = old(self).entries@;
                    let s_new = self.entries@;
                    assert(s_new =~= s_old.update(i as int, (key, entry)));
                    assert forall|k: CrdsKey| #[trigger]
                        self.model@.contains_key(k) implies exists|j: int|
                        0 <= j < s_new.len() && s_new[j].0 == k by {
                        if k == key {
                            assert(s_new[i as int].0 == k);
                        } else {
                            let j = choose|j: int| 0 <= j < s_old.len() && s_old[j].0 == k;
                            assert(s_new[j].0 == k);
                        }
                    }
                }
                return ;
            }
            i += 1;
        }
        self.entries.push((key, entry));
        self.model = Ghost(self.model@.insert(key, entry));
        proof {
            let s_old = old(self).entries@;
            let s_new = self.entries@;
            assert(s_new =~= s_old.push((key, entry)));
            assert(!old(self).model@.contains_key(key));
            assert forall|k: CrdsKey| #[trigger] self.model@.contains_key(k) implies exists|j: int|
                0 <= j < s_new.len() && s_new[j].0 == k by {
                if k == key {
                    assert(s_new[s_new.len() - 1].0 == k);
                } else {
                    let j = choose|j: int| 0 <= j < s_old.len() && s_old[j].0 == k;
                    assert(s_new[j].0 == k);
                }
            }
            assert forall|a: int, b: int| 0 <= a < b < s_new.len() implies (
            #[trigger] s_new[a]).0 != (#[trigger] s_new[b]).0 by {
                if b == s_new.len() - 1 {
                    assert(old(self).model@.contains_key(s_new[a].0));
                }
            }
        }
    }

    pub fn len(&self) -> (r: usize)
        ensures
            r == self.entry_seq().len(),
    {
        self.entries.len()
    }

    pub fn entry_at(&self, i: usize) -> (r: (CrdsKey, CrdsEntry))
        requires
            i < self.entry_seq().len(),
        ensures
            r == self.entry_seq()[i as int],
    {
        self.entries[i]
    }

    /// Applies one incoming `(key, ordinal)` to the table.
    pub fn upsert(&mut self, key: CrdsKey, ordinal: u64) -> (r: Result<(), UpsertError>)
        requires
            old(self).wf(),
        ensures
            final(self).wf(),
            (final(self)@, r) == upsert_model(old(self)@, key, ordinal),
    {
        match self.get(key) {
            None => {
                self.set(key, CrdsEntry { ordinal, num_dups: 0 });
                Ok(())
            },
            Some(entry) => {
                if entry.ordinal < ordinal {
                    self.set(key, CrdsEntry { ordinal, num_dups: 0 });
                    Ok(())
                } else if entry.ordinal == ordinal {
                    let d = if entry.num_dups == 255 {
                        255
                    } else {
                        entry.num_dups + 1
                    };
                    self.set(key, CrdsEntry { ordinal, num_dups: d });
                    Err(UpsertError::Duplicate(d))
                } else {
                    proof {
                        assert(self@ =~= upsert_model(old(self)@, key, ordinal).0);
                    }
                    Err(UpsertError::Outdated)
                }
            },
        }
    }
}

} // verus!
