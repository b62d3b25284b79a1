//! The slot table.
//!
//! A [`Table`] is a fixed-capacity array of slots, each empty, occupied by a
//! key-value entry, or holding a tombstone left by a removal. The probe order
//! is the slot order itself, bounded by the capacity; a walk may stop early at
//! an empty slot because empty slots only ever follow every occupied one,
//! while tombstones keep the probe chain intact where an entry was removed.
//! Growth and compaction rebuild the occupied entries into a fresh, tightly
//! packed slot array.

use vstd::prelude::*;

verus! {

/// One cell of the table: empty, occupied by an entry, or a tombstone kept in
/// place of a removed entry so that probe chains stay intact.
pub enum Slot<V> {
    Empty,
    Occupied { key: u64, value: V },
    Tombstone,
}

/// The key of an occupied slot; meaningless on the other variants.
pub open spec fn slot_key<V>(s: Slot<V>) -> u64 {
    match s {
        Slot::Occupied { key, .. } => key,
        _ => 0,
    }
}

/// The value of an occupied slot; meaningless on the other variants.
pub open spec fn slot_value<V>(s: Slot<V>) -> V {
    match s {
        Slot::Occupied { value, .. } => value,
        _ => vstd::pervasive::arbitrary(),
    }
}

/// The association that a slot sequence stores: later slots win, though under
/// `keys_unique` each key appears in at most one occupied slot.
pub open spec fn slots_map<V>(s: Seq<Slot<V>>) -> Map<u64, V>
    decreases s.len(),
{
    if s.len() == 0 {
        Map::empty()
    } else {
        let m = slots_map(s.drop_last());
        if s.last() is Occupied {
            m.insert(slot_key(s.last()), slot_value(s.last()))
        } else {
            m
        }
    }
}

/// No two occupied slots carry the same key.
pub open spec fn keys_unique<V>(s: Seq<Slot<V>>) -> bool {
    forall|i: int, j: int|
        0 <= i < j < s.len() && #[trigger] s[i] is Occupied && #[trigger] s[j] is Occupied
            ==> slot_key(s[i]) != slot_key(s[j])
}

/// Empty slots only ever follow every occupied slot and every tombstone, so a
/// probe may stop at the first empty slot it meets.
pub open spec fn empty_suffix<V>(s: Seq<Slot<V>>) -> bool {
    forall|i: int, j: int|
        0 <= i < j < s.len() && #[trigger] s[i] is Empty ==> #[trigger] s[j] is Empty
}

/// How many slots are occupied.
pub open spec fn occ_count<V>(s: Seq<Slot<V>>) -> nat
    decreases s.len(),
{
    if s.len() == 0 {
        0
    } else {
        occ_count(s.drop_last()) + if s.last() is Occupied {
            1nat
        } else {
            0nat
        }
    }
}

/// Slot `j` is occupied and carries key `k`.
pub open spec fn occ_at<V>(s: Seq<Slot<V>>, j: int, k: u64) -> bool {
    0 <= j < s.len() && s[j] is Occupied && slot_key(s[j]) == k
}

/// The stored association contains a key exactly when some occupied slot
/// carries it.
pub proof fn lemma_contains<V>(s: Seq<Slot<V>>, k: u64)
    ensures
        slots_map(s).contains_key(k) <==> exists|i: int|
            0 <= i < s.len() && #[trigger] s[i] is Occupied && slot_key(s[i]) == k,
    decreases s.len(),
{
    if s.len() > 0 {
        lemma_contains(s.drop_last(), k);
        if slots_map(s).contains_key(k) {
            if s.last() is Occupied && slot_key(s.last()) == k {
                assert(s[s.len() - 1] is Occupied && slot_key(s[s.len() - 1]) == k);
            } else {
                assert(slots_map(s.drop_last()).contains_key(k));
                let i = choose|i: int|
                    0 <= i < s.drop_last().len() && #[trigger] s.drop_last()[i] is Occupied
                        && slot_key(s.drop_last()[i]) == k;
                assert(s[i] is Occupied && slot_key(s[i]) == k);
            }
        }
        if exists|i: int| 0 <= i < s.len() && #[trigger] s[i] is Occupied && slot_key(s[i]) == k {
            let i = choose|i: int|
                0 <= i < s.len() && #[trigger] s[i] is Occupied && slot_key(s[i]) == k;
            if i == s.len() - 1 {
                assert(slots_map(s).contains_key(k));
            } else {
                assert(s.drop_last()[i] is Occupied && slot_key(s.drop_last()[i]) == k);
                assert(slots_map(s.drop_last()).contains_key(k));
            }
        }
    }
}

/// Under unique keys, the occupied slot that carries a key decides its value.
pub proof fn lemma_value<V>(s: Seq<Slot<V>>, i: int)
    requires
        keys_unique(s),
        0 <= i < s.len(),
        s[i] is Occupied,
    ensures
        slots_map(s).contains_key(slot_key(s[i])),
        slots_map(s)[slot_key(s[i])] == slot_value(s[i]),
    decreases s.len(),
{
    if i == s.len() - 1 {
    } else {
        assert(keys_unique(s.drop_last())) by {
            assert(forall|a: int, b: int|
                0 <= a < b < s.drop_last().len() ==> s.drop_last()[a] == s[a] && s.drop_last()[b]
                    == s[b]);
        }
        assert(s.drop_last()[i] == s[i]);
        lemma_value(s.drop_last(), i);
        if s.last() is Occupied {
            assert(s[s.len() - 1] is Occupied && s[i] is Occupied);
            assert(slot_key(s.last()) != slot_key(s[i]));
        }
    }
}

/// Under unique keys, the number of stored keys is the number of occupied
/// slots.
pub proof fn lemma_dom_len<V>(s: Seq<Slot<V>>)
    requires
        keys_unique(s),
    ensures
        slots_map(s).dom().finite(),
        slots_map(s).dom().len() == occ_count(s),
    decreases s.len(),
{
    if s.len() == 0 {
        assert(slots_map(s).dom() =~= Set::<u64>::empty());
    } else {
        assert(keys_unique(s.drop_last())) by {
            assert(forall|a: int, b: int|
                0 <= a < b < s.drop_last().len() ==> s.drop_last()[a] == s[a] && s.drop_last()[b]
                    == s[b]);
        }
        lemma_dom_len(s.drop_last());
        if s.last() is Occupied {
            let k = slot_key(s.last());
            assert(!slots_map(s.drop_last()).contains_key(k)) by {
                lemma_contains(s.drop_last(), k);
                if slots_map(s.drop_last()).contains_key(k) {
                    let i = choose|i: int|
                        0 <= i < s.drop_last().len() && #[trigger] s.drop_last()[i] is Occupied
                            && slot_key(s.drop_last()[i]) == k;
                    assert(s[i] is Occupied && s[s.len() - 1] is Occupied);
                    assert(false);
                }
            }
            assert(slots_map(s).dom() =~= slots_map(s.drop_last()).dom().insert(k));
            vstd::set::axiom_set_insert_len(slots_map(s.drop_last()).dom(), k);
        }
    }
}

/// No more slots are occupied than exist.
pub proof fn lemma_occ_le_len<V>(s: Seq<Slot<V>>)
    ensures
        occ_count(s) <= s.len(),
    decreases s.len(),
{
    if s.len() > 0 {
        lemma_occ_le_len(s.drop_last());
    }
}

/// A table with fewer occupied slots than slots has a free one.
pub proof fn lemma_free_slot<V>(s: Seq<Slot<V>>)
    requires
        occ_count(s) < s.len(),
    ensures
        exists|i: int| 0 <= i < s.len() && !(#[trigger] s[i] is Occupied),
    decreases s.len(),
{
    if s.last() is Occupied {
        lemma_occ_le_len(s.drop_last());
        lemma_free_slot(s.drop_last());
        let i = choose|i: int|
            0 <= i < s.drop_last().len() && !(#[trigger] s.drop_last()[i] is Occupied);
        assert(!(s[i] is Occupied));
    } else {
        assert(!(s[s.len() - 1] is Occupied));
    }
}

/// A sequence of occupied slots is all count.
pub proof fn lemma_occ_all<V>(s: Seq<Slot<V>>)
    requires
        forall|j: int| 0 <= j < s.len() ==> #[trigger] s[j] is Occupied,
    ensures
        occ_count(s) == s.len(),
    decreases s.len(),
{
    if s.len() > 0 {
        lemma_occ_all(s.drop_last());
    }
}

/// Replacing one slot with an occupied slot or a tombstone keeps the empty
/// slots bunched at the tail, provided the replaced slot was itself not empty
/// or everything before it was occupied.
proof fn lemma_suffix_update<V>(s: Seq<Slot<V>>, i: int, x: Slot<V>)
    requires
        empty_suffix(s),
        0 <= i < s.len(),
        !(x is Empty),
        s[i] is Empty ==> forall|j: int| 0 <= j < i ==> #[trigger] s[j] is Occupied,
    ensures
        empty_suffix(s.update(i, x)),
{
    assert forall|a: int, b: int|
        0 <= a < b < s.update(i, x).len() && #[trigger] s.update(i, x)[a] is Empty
        implies #[trigger] s.update(i, x)[b] is Empty by {
        assert(a != i);
        assert(s[a] is Empty);
        if a < i {
            assert(s[i] is Empty);
        }
        assert(b != i);
        assert(s[b] is Empty);
    }
}

/// How one slot update moves the stored association and the occupied count.
pub proof fn lemma_update<V>(s: Seq<Slot<V>>, i: int, x: Slot<V>)
    requires
        keys_unique(s),
        0 <= i < s.len(),
        s[i] is Occupied || x is Occupied,
        s[i] is Occupied && x is Occupied ==> slot_key(x) == slot_key(s[i]),
        !(s[i] is Occupied) && x is Occupied ==> !slots_map(s).contains_key(slot_key(x)),
    ensures
        keys_unique(s.update(i, x)),
        x is Occupied ==> slots_map(s.update(i, x)) =~= slots_map(s).insert(
            slot_key(x),
            slot_value(x),
        ),
        !(x is Occupied) ==> slots_map(s.update(i, x)) =~= slots_map(s).remove(slot_key(s[i])),
        occ_count(s.update(i, x)) + (if s[i] is Occupied {
            1nat
        } else {
            0nat
        }) == occ_count(s) + (if x is Occupied {
            1nat
        } else {
            0nat
        }),
    decreases s.len(),
{
    assert(keys_unique(s.update(i, x))) by {
        if x is Occupied {
            lemma_contains(s, slot_key(x));
            assert(forall|j: int|
                0 <= j < s.len() && j != i && #[trigger] s[j] is Occupied ==> slot_key(s[j])
                    != slot_key(x));
        }
        assert(forall|a: int, b: int|
            0 <= a < b < s.len() && a != i && b != i ==> s.update(i, x)[a] == s[a] && s.update(
                i,
                x,
            )[b] == s[b]);
    }
    if i == s.len() - 1 {
        assert(s.update(i, x).drop_last() =~= s.drop_last());
        assert(s.update(i, x).last() == x);
        if s[i] is Occupied {
            let k = slot_key(s[i]);
            assert(!slots_map(s.drop_last()).contains_key(k)) by {
                lemma_contains(s.drop_last(), k);
                if slots_map(s.drop_last()).contains_key(k) {
                    let j = choose|j: int|
                        0 <= j < s.drop_last().len() && #[trigger] s.drop_last()[j] is Occupied
                            && slot_key(s.drop_last()[j]) == k;
                    assert(s[j] is Occupied && s[i] is Occupied);
                    assert(false);
                }
            }
            if x is Occupied {
                assert(slots_map(s.update(i, x)) =~= slots_map(s).insert(
                    slot_key(x),
                    slot_value(x),
                ));
            } else {
                assert(slots_map(s.update(i, x)) =~= slots_map(s).remove(k));
            }
        } else {
            assert(slots_map(s) == slots_map(s.drop_last()));
            assert(slots_map(s.update(i, x)) =~= slots_map(s).insert(slot_key(x), slot_value(x)));
        }
    } else {
        assert(keys_unique(s.drop_last())) by {
            assert(forall|a: int, b: int|
                0 <= a < b < s.drop_last().len() ==> s.drop_last()[a] == s[a] && s.drop_last()[b]
                    == s[b]);
        }
        assert(s.drop_last()[i] == s[i]);
        if !(s[i] is Occupied) && x is Occupied {
            assert(!slots_map(s.drop_last()).contains_key(slot_key(x))) by {
                lemma_contains(s.drop_last(), slot_key(x));
                lemma_contains(s, slot_key(x));
                if slots_map(s.drop_last()).contains_key(slot_key(x)) {
                    let j = choose|j: int|
                        0 <= j < s.drop_last().len() && #[trigger] s.drop_last()[j] is Occupied
                            && slot_key(s.drop_last()[j]) == slot_key(x);
                    assert(s[j] is Occupied && slot_key(s[j]) == slot_key(x));
                    assert(false);
                }
            }
        }
        lemma_update(s.drop_last(), i, x);
        assert(s.update(i, x).drop_last() =~= s.drop_last().update(i, x));
        assert(s.update(i, x).last() == s.last());
        if s.last() is Occupied {
            let kl = slot_key(s.last());
            let vl = slot_value(s.last());
            // the updated index is not the last one, so the two keys differ
            if s[i] is Occupied {
                assert(s[i] is Occupied && s[s.len() - 1] is Occupied);
                assert(slot_key(s[i]) != kl);
            }
            if x is Occupied {
                assert(slot_key(x) != kl) by {
                    if s[i] is Occupied {
                    } else {
                        assert(slots_map(s).contains_key(kl));
                    }
                }
                assert(slots_map(s.update(i, x)) =~= slots_map(s).insert(
                    slot_key(x),
                    slot_value(x),
                ));
            } else {
                assert(slot_key(s[i]) != kl);
                assert(slots_map(s.update(i, x)) =~= slots_map(s).remove(slot_key(s[i])));
            }
        } else {
            assert(slots_map(s) == slots_map(s.drop_last()));
            assert(slots_map(s.update(i, x)) == slots_map(s.drop_last().update(i, x)));
        }
    }
}

/// What a conditional update did to the entry it found, carrying the value it
/// displaced.
pub enum ComputeOutcome<V> {
    /// No entry carried the key; nothing changed.
    Absent,
    /// The remapping declined a replacement: the entry was removed and its
    /// value is handed back.
    Removed(V),
    /// The remapping produced a replacement, which is now stored; the previous
    /// value is handed back.
    Updated(V),
}

/// A fixed-capacity array of slots. Every operation leaves the keys unique
/// and the empty slots bunched at the tail.
pub struct Table<V> {
    slots: Vec<Slot<V>>,
}

impl<V> Table<V> {
    /// The association the table stores.
    pub closed spec fn spec_map(self) -> Map<u64, V> {
        slots_map(self.slots@)
    }

    /// How many slots the table has.
    pub closed spec fn capacity(self) -> nat {
        self.slots@.len()
    }

    /// How many slots are occupied.
    pub closed spec fn occupied(self) -> nat {
        occ_count(self.slots@)
    }

    /// Keys unique, empty slots only at the tail.
    pub closed spec fn wf(self) -> bool {
        keys_unique(self.slots@) && empty_suffix(self.slots@)
    }

    /// The number of stored keys is the number of occupied slots, and never
    /// exceeds the capacity.
    pub proof fn lemma_occupied_is_len(self)
        requires
            self.wf(),
        ensures
            self.spec_map().dom().finite(),
            self.spec_map().dom().len() == self.occupied(),
            self.occupied() <= self.capacity(),
    {
        lemma_dom_len(self.slots@);
        lemma_occ_le_len(self.slots@);
    }

    /// A table of `capacity` empty slots.
    pub fn new(capacity: usize) -> (t: Table<V>)
        ensures
            t.wf(),
            t.spec_map() =~= Map::<u64, V>::empty(),
            t.capacity() == capacity,
            t.occupied() == 0,
    {
        let mut slots: Vec<Slot<V>> = Vec::new();
        let mut i: usize = 0;
        while i < capacity
            invariant
                i <= capacity,
                slots@.len() == i,
                forall|j: int| 0 <= j < i ==> slots@[j] is Empty,
                slots_map(slots@) =~= Map::<u64, V>::empty(),
                occ_count(slots@) == 0,
            decreases capacity - i,
        {
            let ghost pre = slots@;
            slots.push(Slot::Empty);
            proof {
                assert(slots@.drop_last() =~= pre);
            }
            i = i + 1;
        }
        Table { slots }
    }

    /// The capacity as a machine word.
    pub fn capacity_len(&self) -> (n: usize)
        ensures
            n == self.capacity(),
    {
        self.slots.len()
    }

    /// Recount the occupied slots.
    pub fn occupied_count(&self) -> (n: usize)
        ensures
            n == self.occupied(),
    {
        let mut n: usize = 0;
        let mut i: usize = 0;
        let len = self.slots.len();
        while i < len
            invariant
                i <= len,
                len == self.slots@.len(),
                n == occ_count(self.slots@.take(i as int)),
                n <= i,
            decreases len - i,
        {
            let occ = match &self.slots[i] {
                Slot::Occupied { .. } => true,
                _ => false,
            };
            proof {
                assert(self.slots@.take(i + 1).drop_last() =~= self.slots@.take(i as int));
                assert(self.slots@.take(i + 1).last() == self.slots@[i as int]);
            }
            if occ {
                n = n + 1;
            }
            i = i + 1;
        }
        proof {
            assert(self.slots@.take(len as int) =~= self.slots@);
        }
        n
    }

    /// Walk the probe order for `key`: the index of the occupied slot that
    /// carries it, if any. The walk stops early at an empty slot.
    fn find_index(&self, key: u64) -> (r: Option<usize>)
        requires
            self.wf(),
        ensures
            match r {
                Some(i) => i < self.slots@.len() && self.slots@[i as int] is Occupied && slot_key(
                    self.slots@[i as int],
                ) == key && self.spec_map().contains_key(key) && self.spec_map()[key] == slot_value(
                    self.slots@[i as int],
                ),
                None => !self.spec_map().contains_key(key),
            },
    {
        let len = self.slots.len();
        let mut i: usize = 0;
        while i < len
            invariant
                self.wf(),
                i <= len,
                len == self.slots@.len(),
                forall|j: int|
                    0 <= j < i ==> !(#[trigger] self.slots@[j] is Occupied && slot_key(
                        self.slots@[j],
                    ) == key),
            decreases len - i,
        {
            match &self.slots[i] {
                Slot::Occupied { key: k, .. } => {
                    if *k == key {
                        proof {
                            lemma_value(self.slots@, i as int);
                        }
                        return Some(i);
                    }
                },
                Slot::Empty => {
                    proof {
                        lemma_contains(self.slots@, key);
                        if self.spec_map().contains_key(key) {
                            let j = choose|j: int|
                                0 <= j < self.slots@.len() && #[trigger] self.slots@[j] is Occupied
                                    && slot_key(self.slots@[j]) == key;
                            if j > i {
                                assert(self.slots@[j] is Empty);
                            }
                            assert(false);
                        }
                    }
                    return None;
                },
                Slot::Tombstone => {},
            }
            i = i + 1;
        }
        proof {
            lemma_contains(self.slots@, key);
        }
        None
    }

    /// The first slot a new entry may claim: the first tombstone or empty
    /// slot in probe order.
    fn first_free(&self) -> (i: usize)
        requires
            exists|j: int| 0 <= j < self.slots@.len() && !(#[trigger] self.slots@[j] is Occupied),
        ensures
            i < self.slots@.len(),
            !(self.slots@[i as int] is Occupied),
            forall|j: int| 0 <= j < i ==> #[trigger] self.slots@[j] is Occupied,
    {
        let len = self.slots.len();
        let mut i: usize = 0;
        while i < len
            invariant
                i <= len,
                len == self.slots@.len(),
                exists|j: int| 0 <= j < self.slots@.len() && !(#[trigger] self.slots@[j] is Occupied),
                forall|j: int| 0 <= j < i ==> #[trigger] self.slots@[j] is Occupied,
            decreases len - i,
        {
            let free = match &self.slots[i] {
                Slot::Occupied { .. } => false,
                _ => true,
            };
            if free {
                return i;
            }
            i = i + 1;
        }
        proof {
            let j = choose|j: int| 0 <= j < self.slots@.len() && !(#[trigger] self.slots@[j] is Occupied);
            assert(false);
        }
        vstd::pervasive::unreached()
    }

    /// Look a key up; the returned borrow is the stored value.
    pub fn get(&self, key: u64) -> (r: Option<&V>)
        requires
            self.wf(),
        ensures
            match r {
                Some(v) => self.spec_map().contains_key(key) && *v == self.spec_map()[key],
                None => !self.spec_map().contains_key(key),
            },
    {
        match self.find_index(key) {
            None => None,
            Some(i) => match &self.slots[i] {
                Slot::Occupied { value, .. } => Some(value),
                _ => vstd::pervasive::unreached(),
            },
        }
    }

    /// Store an entry, displacing the previous value under its key if there
    /// was one. Needs a spare slot unless the key is already present.
    pub fn insert(&mut self, key: u64, value: V) -> (prev: Option<V>)
        requires
            old(self).wf(),
            old(self).spec_map().contains_key(key) || old(self).occupied() < old(self).capacity(),
        ensures
            final(self).wf(),
            final(self).spec_map() =~= old(self).spec_map().insert(key, value),
            final(self).capacity() == old(self).capacity(),
            final(self).occupied() == old(self).occupied() + (if old(self).spec_map().contains_key(
                key,
            ) {
                0nat
            } else {
                1nat
            }),
            match prev {
                Some(p) => old(self).spec_map().contains_key(key) && p == old(self).spec_map()[key],
                None => !old(self).spec_map().contains_key(key),
            },
    {
        let ghost pre = self.slots@;
        match self.find_index(key) {
            Some(i) => {
                let mut taken = Slot::Occupied { key, value };
                core::mem::swap(&mut taken, &mut self.slots[i]);
                proof {
                    lemma_update(pre, i as int, Slot::Occupied { key, value });
                    lemma_suffix_update(pre, i as int, self.slots@[i as int]);
                }
                match taken {
                    Slot::Occupied { value: v0, .. } => Some(v0),
                    _ => vstd::pervasive::unreached(),
                }
            },
            None => {
                proof {
                    lemma_occ_le_len(pre);
                    lemma_free_slot(pre);
                }
                let i = self.first_free();
                let mut taken = Slot::Occupied { key, value };
                core::mem::swap(&mut taken, &mut self.slots[i]);
                proof {
                    lemma_update(pre, i as int, Slot::Occupied { key, value });
                    lemma_suffix_update(pre, i as int, self.slots@[i as int]);
                }
                None
            },
        }
    }

    /// Remove the entry carrying a key, leaving a tombstone in its slot.
    pub fn remove(&mut self, key: u64) -> (prev: Option<V>)
        requires
            old(self).wf(),
        ensures
            final(self).wf(),
            final(self).spec_map() =~= old(self).spec_map().remove(key),
            final(self).capacity() == old(self).capacity(),
            final(self).occupied() + (if old(self).spec_map().contains_key(key) {
                1nat
            } else {
                0nat
            }) == old(self).occupied(),
            match prev {
                Some(p) => old(self).spec_map().contains_key(key) && p == old(self).spec_map()[key],
                None => !old(self).spec_map().contains_key(key),
            },
    {
        let ghost pre = self.slots@;
        match self.find_index(key) {
            None => {
                proof {
                    assert(self.spec_map() =~= self.spec_map().remove(key));
                }
                None
            },
            Some(i) => {
                let mut taken = Slot::Tombstone;
                core::mem::swap(&mut taken, &mut self.slots[i]);
                proof {
                    lemma_update(pre, i as int, Slot::Tombstone);
                    lemma_suffix_update(pre, i as int, Slot::Tombstone);
                }
                match taken {
                    Slot::Occupied { value: v0, .. } => Some(v0),
                    _ => vstd::pervasive::unreached(),
                }
            },
        }
    }

    /// Rebuild into a fresh, tightly packed slot array of at least `want`
    /// slots: every entry migrates, every tombstone is dropped.
    pub fn rebuild(&mut self, want: usize)
        requires
            old(self).wf(),
        ensures
            final(self).wf(),
            final(self).spec_map() =~= old(self).spec_map(),
            final(self).occupied() == old(self).occupied(),
            final(self).capacity() == if want >= old(self).occupied() {
                want as nat
            } else {
                old(self).occupied()
            },
    {
        let ghost pre = self.slots@;
        let len = self.slots.len();
        let mut fresh: Vec<Slot<V>> = Vec::new();
        let mut i: usize = 0;
        while i < len
            invariant
                i <= len,
                len == self.slots@.len(),
                pre.len() == len,
                keys_unique(pre),
                forall|j: int| i <= j < len ==> self.slots@[j] == pre[j],
                forall|j: int| 0 <= j < fresh@.len() ==> #[trigger] fresh@[j] is Occupied,
                keys_unique(fresh@),
                slots_map(fresh@) =~= slots_map(pre.take(i as int)),
                fresh@.len() == occ_count(pre.take(i as int)),
            decreases len - i,
        {
            let mut taken = Slot::Tombstone;
            core::mem::swap(&mut taken, &mut self.slots[i]);
            proof {
                assert(pre.take(i + 1).drop_last() =~= pre.take(i as int));
                assert(pre.take(i + 1).last() == pre[i as int]);
            }
            match taken {
                Slot::Occupied { key, value } => {
                    proof {
                        assert(!slots_map(pre.take(i as int)).contains_key(key)) by {
                            lemma_contains(pre.take(i as int), key);
                            if slots_map(pre.take(i as int)).contains_key(key) {
                                let j = choose|j: int|
                                    0 <= j < pre.take(i as int).len() && #[trigger] pre.take(
                                        i as int,
                                    )[j] is Occupied && slot_key(pre.take(i as int)[j]) == key;
                                assert(pre[j] is Occupied && pre[i as int] is Occupied);
                                assert(false);
                            }
                        }
                        lemma_contains(fresh@, key);
                    }
                    let ghost fpre = fresh@;
                    fresh.push(Slot::Occupied { key, value });
                    proof {
                        assert(fresh@.drop_last() =~= fpre);
                        assert(keys_unique(fresh@)) by {
                            assert forall|a: int, b: int|
                                0 <= a < b < fresh@.len() && #[trigger] fresh@[a] is Occupied
                                    && #[trigger] fresh@[b] is Occupied implies slot_key(fresh@[a])
                                != slot_key(fresh@[b]) by {
                                if b == fresh@.len() - 1 {
                                    assert(fpre[a] is Occupied);
                                    if slot_key(fpre[a]) == key {
                                        assert(occ_at(fpre, a, key));
                                        assert(slots_map(fpre).contains_key(key));
                                        assert(false);
                                    }
                                } else {
                                    assert(fpre[a] is Occupied && fpre[b] is Occupied);
                                }
                            }
                        }
                    }
                },
                _ => {},
            }
            i = i + 1;
        }
        proof {
            assert(pre.take(len as int) =~= pre);
            lemma_occ_all(fresh@);
        }
        let target = if want > fresh.len() {
            want
        } else {
            fresh.len()
        };
        let ghost occ_len = fresh@.len() as int;
        while fresh.len() < target
            invariant
                occ_len <= fresh@.len() <= target,
                forall|j: int| 0 <= j < occ_len ==> #[trigger] fresh@[j] is Occupied,
                forall|j: int| occ_len <= j < fresh@.len() ==> #[trigger] fresh@[j] is Empty,
                keys_unique(fresh@),
                slots_map(fresh@) =~= slots_map(pre),
                occ_count(fresh@) == occ_len,
            decreases target - fresh@.len(),
        {
            let ghost fpre = fresh@;
            fresh.push(Slot::Empty);
            proof {
                assert(fresh@.drop_last() =~= fpre);
                assert(keys_unique(fresh@)) by {
                    assert(forall|a: int, b: int|
                        0 <= a < b < fresh@.len() - 1 ==> fresh@[a] == fpre[a] && fresh@[b]
                            == fpre[b]);
                }
            }
        }
        self.slots = fresh;
        proof {
            assert(empty_suffix(self.slots@)) by {
                assert forall|a: int, b: int|
                    0 <= a < b < self.slots@.len() && #[trigger] self.slots@[a] is Empty
                    implies #[trigger] self.slots@[b] is Empty by {
                    assert(a >= occ_len);
                }
            }
        }
    }

    /// Apply a conditional update to the entry carrying `key`, if any: the
    /// remapping sees the key and the current value and either supplies a
    /// replacement or removes the entry.
    pub fn compute<F: FnOnce(&u64, &V) -> Option<V>>(&mut self, key: u64, f: F) -> (r:
        ComputeOutcome<V>)
        requires
            old(self).wf(),
            old(self).spec_map().contains_key(key) ==> call_requires(
                f,
                (&key, &old(self).spec_map()[key]),
            ),
        ensures
            final(self).wf(),
            final(self).capacity() == old(self).capacity(),
            match r {
                ComputeOutcome::Absent => {
                    &&& !old(self).spec_map().contains_key(key)
                    &&& final(self).spec_map() =~= old(self).spec_map()
                    &&& final(self).occupied() == old(self).occupied()
                },
                ComputeOutcome::Removed(v0) => {
                    &&& old(self).spec_map().contains_key(key)
                    &&& v0 == old(self).spec_map()[key]
                    &&& call_ensures(f, (&key, &old(self).spec_map()[key]), Option::<V>::None)
                    &&& final(self).spec_map() =~= old(self).spec_map().remove(key)
                    &&& final(self).occupied() + 1 == old(self).occupied()
                },
                ComputeOutcome::Updated(v0) => {
                    &&& old(self).spec_map().contains_key(key)
                    &&& v0 == old(self).spec_map()[key]
                    &&& final(self).spec_map().contains_key(key)
                    &&& call_ensures(
                        f,
                        (&key, &old(self).spec_map()[key]),
                        Some(final(self).spec_map()[key]),
                    )
                    &&& final(self).spec_map() =~= old(self).spec_map().insert(
                        key,
                        final(self).spec_map()[key],
                    )
                    &&& final(self).occupied() == old(self).occupied()
                },
            },
    {
        let ghost pre = self.slots@;
        match self.find_index(key) {
            None => ComputeOutcome::Absent,
            Some(i) => {
                let mut taken = Slot::Tombstone;
                core::mem::swap(&mut taken, &mut self.slots[i]);
                proof {
                    lemma_update(pre, i as int, Slot::Tombstone);
                }
                match taken {
                    Slot::Occupied { key: k0, value: v0 } => {
                        let res = f(&k0, &v0);
                        match res {
                            None => {
                                proof {
                                    lemma_suffix_update(pre, i as int, Slot::Tombstone);
                                }
                                ComputeOutcome::Removed(v0)
                            },
                            Some(nv) => {
                                let ghost mid = self.slots@;
                                let mut put = Slot::Occupied { key: k0, value: nv };
                                core::mem::swap(&mut put, &mut self.slots[i]);
                                proof {
                                    assert(mid[i as int] is Tombstone);
                                    assert(!slots_map(mid).contains_key(k0));
                                    lemma_update(mid, i as int, self.slots@[i as int]);
                                    assert(final(self).spec_map() =~= old(self).spec_map().insert(
                                        key,
                                        final(self).spec_map()[key],
                                    ));
                                    lemma_suffix_update(pre, i as int, Slot::Tombstone);
                                    lemma_suffix_update(mid, i as int, self.slots@[i as int]);
                                }
                                ComputeOutcome::Updated(v0)
                            },
                        }
                    },
                    _ => vstd::pervasive::unreached(),
                }
            },
        }
    }

    /// Drop every entry that the predicate rejects, leaving a tombstone in
    /// its slot; the table is not compacted.
    pub fn retain<F: Fn(&u64, &V) -> bool>(&mut self, f: F)
        requires
            old(self).wf(),
            forall|k: u64, v: V|
                old(self).spec_map().contains_pair(k, v) ==> call_requires(f, (&k, &v)),
        ensures
            final(self).wf(),
            final(self).capacity() == old(self).capacity(),
            forall|k: u64|
                #[trigger] final(self).spec_map().contains_key(k)
                    ==> old(self).spec_map().contains_key(k)
                    && final(self).spec_map()[k] == old(self).spec_map()[k],
            forall|k: u64|
                #[trigger] old(self).spec_map().contains_key(k) ==> ({
                    ||| final(self).spec_map().contains_key(k) && call_ensures(
                        f,
                        (&k, &old(self).spec_map()[k]),
                        true,
                    )
                    ||| !final(self).spec_map().contains_key(k) && call_ensures(
                        f,
                        (&k, &old(self).spec_map()[k]),
                        false,
                    )
                }),
    {
        let ghost pre = self.slots@;
        proof {
            assert forall|k: u64, v: V| slots_map(pre).contains_pair(k, v) implies call_requires(
                f,
                (&k, &v),
            ) by {
                assert(old(self).spec_map().contains_pair(k, v));
            }
        }
        let len = self.slots.len();
        let mut i: usize = 0;
        while i < len
            invariant
                i <= len,
                len == self.slots@.len(),
                pre.len() == len,
                keys_unique(pre),
                empty_suffix(pre),
                keys_unique(self.slots@),
                empty_suffix(self.slots@),
                forall|k: u64, v: V|
                    slots_map(pre).contains_pair(k, v) ==> call_requires(f, (&k, &v)),
                forall|j: int| i <= j < len ==> self.slots@[j] == pre[j],
                forall|j: int|
                    0 <= j < i && #[trigger] pre[j] is Occupied ==> ((self.slots@[j] == pre[j]
                        && call_ensures(f, (&slot_key(pre[j]), &slot_value(pre[j])), true)) || (
                    self.slots@[j] is Tombstone && call_ensures(
                        f,
                        (&slot_key(pre[j]), &slot_value(pre[j])),
                        false,
                    ))),
                forall|j: int|
                    0 <= j < i && !(#[trigger] pre[j] is Occupied) ==> self.slots@[j] == pre[j],
            decreases len - i,
        {
            let keep = match &self.slots[i] {
                Slot::Occupied { key, value } => {
                    proof {
                        lemma_value(pre, i as int);
                        assert(slots_map(pre).contains_pair(
                            slot_key(pre[i as int]),
                            slot_value(pre[i as int]),
                        ));
                    }
                    f(key, value)
                },
                _ => true,
            };
            if !keep {
                let ghost cur = self.slots@;
                let mut taken = Slot::Tombstone;
                core::mem::swap(&mut taken, &mut self.slots[i]);
                proof {
                    assert(cur[i as int] is Occupied);
                    lemma_update(cur, i as int, Slot::Tombstone);
                    lemma_suffix_update(cur, i as int, Slot::Tombstone);
                }
            }
            i = i + 1;
        }
        proof {
            let post = self.slots@;
            assert forall|k: u64| #[trigger] slots_map(post).contains_key(k) implies slots_map(
                pre,
            ).contains_key(k) && slots_map(post)[k] == slots_map(pre)[k] by {
                lemma_contains(post, k);
                let j = choose|j: int|
                    0 <= j < post.len() && #[trigger] post[j] is Occupied && slot_key(post[j]) == k;
                assert(pre[j] is Occupied);
                assert(post[j] == pre[j]);
                lemma_value(post, j);
                lemma_value(pre, j);
            }
            assert forall|k: u64| #[trigger] slots_map(pre).contains_key(k) implies ((slots_map(
                post,
            ).contains_key(k) && call_ensures(f, (&k, &slots_map(pre)[k]), true)) || (!slots_map(
                post,
            ).contains_key(k) && call_ensures(f, (&k, &slots_map(pre)[k]), false))) by {
                lemma_contains(pre, k);
                let j = choose|j: int|
                    0 <= j < pre.len() && #[trigger] pre[j] is Occupied && slot_key(pre[j]) == k;
                lemma_value(pre, j);
                if post[j] == pre[j] {
                    lemma_value(post, j);
                } else {
                    assert(post[j] is Tombstone);
                    lemma_contains(post, k);
                    if slots_map(post).contains_key(k) {
                        let j2 = choose|j2: int|
                            0 <= j2 < post.len() && #[trigger] post[j2] is Occupied && slot_key(
                                post[j2],
                            ) == k;
                        assert(pre[j2] is Occupied && slot_key(pre[j2]) == k);
                        assert(j2 != j);
                        assert(pre[j] is Occupied && pre[j2] is Occupied);
                        assert(false);
                    }
                }
            }
        }
    }

    /// Every entry, in slot order: the key and a borrow of the value.
    pub fn entries(&self) -> (r: Vec<(u64, &V)>)
        requires
            self.wf(),
        ensures
            r@.len() == self.occupied(),
            forall|x: int|
                0 <= x < r@.len() ==> self.spec_map().contains_key(#[trigger] r@[x].0)
                    && *r@[x].1 == self.spec_map()[r@[x].0],
            forall|x: int, y: int| 0 <= x < y < r@.len() ==> r@[x].0 != r@[y].0,
            forall|k: u64|
                #[trigger] self.spec_map().contains_key(k) ==> exists|x: int|
                    0 <= x < r@.len() && #[trigger] r@[x].0 == k,
    {
        let mut r: Vec<(u64, &V)> = Vec::new();
        let ghost mut idxs: Seq<int> = Seq::empty();
        let len = self.slots.len();
        let mut i: usize = 0;
        while i < len
            invariant
                self.wf(),
                i <= len,
                len == self.slots@.len(),
                r@.len() == occ_count(self.slots@.take(i as int)),
                idxs.len() == r@.len(),
                forall|x: int|
                    0 <= x < r@.len() ==> self.spec_map().contains_key(#[trigger] r@[x].0)
                        && *r@[x].1 == self.spec_map()[r@[x].0],
                forall|x: int|
                    0 <= x < r@.len() ==> 0 <= #[trigger] idxs[x] < i && occ_at(
                        self.slots@,
                        idxs[x],
                        r@[x].0,
                    ),
                forall|x: int, y: int| 0 <= x < y < idxs.len() ==> idxs[x] < idxs[y],
                forall|j: int|
                    0 <= j < i && #[trigger] self.slots@[j] is Occupied ==> exists|x: int|
                        0 <= x < r@.len() && #[trigger] r@[x].0 == slot_key(self.slots@[j]),
            decreases len - i,
        {
            proof {
                assert(self.slots@.take(i + 1).drop_last() =~= self.slots@.take(i as int));
                assert(self.slots@.take(i + 1).last() == self.slots@[i as int]);
            }
            let ghost rpre = r@;
            match &self.slots[i] {
                Slot::Occupied { key, value } => {
                    proof {
                        lemma_value(self.slots@, i as int);
                    }
                    r.push((*key, value));
                    proof {
                        idxs = idxs.push(i as int);
                        assert(occ_at(self.slots@, i as int, r@[r@.len() - 1].0));
                        assert forall|j: int|
                            0 <= j < i + 1 && #[trigger] self.slots@[j] is Occupied implies exists|
                            x: int,
                        |
                            0 <= x < r@.len() && #[trigger] r@[x].0 == slot_key(self.slots@[j]) by {
                            if j < i {
                                let x = choose|x: int|
                                    0 <= x < rpre.len() && #[trigger] rpre[x].0 == slot_key(
                                        self.slots@[j],
                                    );
                                assert(r@[x].0 == slot_key(self.slots@[j]));
                            } else {
                                assert(r@[r@.len() - 1].0 == slot_key(self.slots@[j]));
                            }
                        }
                    }
                },
                _ => {
                    proof {
                        assert forall|j: int|
                            0 <= j < i + 1 && #[trigger] self.slots@[j] is Occupied implies exists|
                            x: int,
                        |
                            0 <= x < r@.len() && #[trigger] r@[x].0 == slot_key(self.slots@[j]) by {
                            assert(j < i);
                        }
                    }
                },
            }
            i = i + 1;
        }
        proof {
            assert(self.slots@.take(len as int) =~= self.slots@);
            assert forall|x: int, y: int| 0 <= x < y < r@.len() implies r@[x].0 != r@[y].0 by {
                assert(occ_at(self.slots@, idxs[x], r@[x].0));
                assert(occ_at(self.slots@, idxs[y], r@[y].0));
                assert(idxs[x] < idxs[y]);
            }
            assert forall|k: u64| #[trigger] self.spec_map().contains_key(k) implies exists|x: int|
                0 <= x < r@.len() && #[trigger] r@[x].0 == k by {
                lemma_contains(self.slots@, k);
                let j = choose|j: int|
                    0 <= j < self.slots@.len() && #[trigger] self.slots@[j] is Occupied && slot_key(
                        self.slots@[j],
                    ) == k;
                let x = choose|x: int|
                    0 <= x < r@.len() && #[trigger] r@[x].0 == slot_key(self.slots@[j]);
                assert(r@[x].0 == k);
            }
            lemma_dom_len(self.slots@);
        }
        r
    }
}

} // verus!
