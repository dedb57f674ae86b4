//! Position-keyed transposition table.
//!
//! A fixed array of `TABLE_SIZE` (a prime near 8.3 million) slots, addressed
//! by `key % TABLE_SIZE`.  Each slot holds a truncated 32-bit copy of the
//! position key it was written for — a collision check, not a guarantee:
//! two distinct keys that agree both on the slot index and on the truncated
//! key produce a false hit, an accepted bounded-probability risk — and a
//! bias-shifted score bound.  Inserts overwrite unconditionally; `reset`
//! clears every slot outright, so that no stale entry can act as a bound.
use vstd::prelude::*;

verus! {

/// Number of slots: a prime, so that keys spread well over the table.
pub const TABLE_SIZE: usize = 8388593;

#[derive(Clone, Copy, PartialEq, Eq, Structural)]
pub struct Entry {
    /// Truncated copy of the key this slot was last written for.
    pub key: u32,
    /// The bias-shifted score bound stored for that key.
    pub score: i8,
}

pub struct Table {
    map: Vec<Entry>,
    /// The full 64-bit key each slot was last written for, kept as ghost
    /// data beside the truncated stored key, so that the search can state
    /// when a probe's hit is genuine and when it is a truncation
    /// collision.
    keys: Ghost<Seq<u64>>,
}

/// The truncated form of a position key that slots store and compare.
pub open spec fn trunc(key: u64) -> u32 {
    key as u32
}

/// The slot that holds entries for `key`.
pub open spec fn spec_index(key: u64) -> int {
    key as int % (TABLE_SIZE as int)
}

impl Table {
    /// The stored slots.
    pub closed spec fn view(self) -> Seq<Entry> {
        self.map@
    }

    /// The full key each slot was last written for (ghost).
    pub closed spec fn gkeys(self) -> Seq<u64> {
        self.keys@
    }

    /// The backing array always has exactly `TABLE_SIZE` slots.
    pub open spec fn wf(self) -> bool {
        self@.len() == TABLE_SIZE && self.gkeys().len() == TABLE_SIZE
    }

    /// A fresh table: every slot holds key 0 with score 0.
    pub fn new() -> (t: Table)
        ensures
            t.wf(),
            forall|i: int| 0 <= i < TABLE_SIZE ==> t@[i] == (Entry { key: 0u32, score: 0i8 }),
    {
        let mut map: Vec<Entry> = Vec::new();
        let mut i: usize = 0;
        while i < TABLE_SIZE
            invariant
                i <= TABLE_SIZE,
                map@.len() == i,
                forall|j: int| 0 <= j < i ==> map@[j] == (Entry { key: 0u32, score: 0i8 }),
            decreases TABLE_SIZE - i,
        {
            map.push(Entry { key: 0, score: 0 });
            i = i + 1;
        }
        Table { map, keys: Ghost(Seq::new(TABLE_SIZE as nat, |i: int| 0u64)) }
    }

    /// The slot index for `key`.
    pub fn index(key: u64) -> (i: usize)
        ensures
            i == spec_index(key),
            i < TABLE_SIZE,
    {
        (key % (TABLE_SIZE as u64)) as usize
    }

    /// Overwrite `key`'s slot, unconditionally: the last writer wins.
    pub fn insert(&mut self, key: u64, score: i8)
        requires
            old(self).wf(),
        ensures
            final(self).wf(),
            final(self)@ == old(self)@.update(
                spec_index(key),
                Entry { key: trunc(key), score: score },
            ),
            final(self).gkeys() == old(self).gkeys().update(spec_index(key), key),
    {
        let i = Self::index(key);
        self.map[i] = Entry { key: key as u32, score };
        proof {
            self.keys@ = self.keys@.update(spec_index(key), key);
        }
    }

    /// The stored score bound for `key`, if `key`'s slot passes the
    /// truncated-key check; `None` on a miss.  A hit can be false when a
    /// different key collides on both the index and the truncation.
    pub fn get(&mut self, key: u64) -> (r: Option<i8>)
        requires
            old(self).wf(),
        ensures
            *final(self) == *old(self),
            r == if old(self)@[spec_index(key)].key == trunc(key) {
                Some(old(self)@[spec_index(key)].score)
            } else {
                None::<i8>
            },
    {
        let entry = self.map[Self::index(key)];
        if entry.key == key as u32 {
            Some(entry.score)
        } else {
            None
        }
    }

    /// Clear every slot (keeping the backing storage), so that entries
    /// from an earlier search can no longer act as bounds.  Clearing the
    /// stored keys alone would not be enough: a real position key whose
    /// truncation is 0 would still match a cleared slot, so the score is
    /// cleared too, to the one value the search's bias scheme never
    /// stores and always rejects.
    pub fn reset(&mut self)
        requires
            old(self).wf(),
        ensures
            final(self).wf(),
            final(self).gkeys() == old(self).gkeys(),
            forall|i: int| 0 <= i < TABLE_SIZE ==> final(self)@[i] == (Entry {
                key: 0u32,
                score: 0i8,
            }),
    {
        let mut i: usize = 0;
        while i < TABLE_SIZE
            invariant
                old(self).wf(),
                i <= TABLE_SIZE,
                self@.len() == TABLE_SIZE,
                self.gkeys() == old(self).gkeys(),
                forall|j: int| 0 <= j < i ==> self@[j] == (Entry { key: 0u32, score: 0i8 }),
            decreases TABLE_SIZE - i,
        {
            self.map[i] = Entry { key: 0, score: 0 };
            i = i + 1;
        }
    }
}

} // verus!
