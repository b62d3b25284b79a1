//! The map.
//!
//! A [`HashMap`] owns the slot [`Table`], an exact entry counter, the table's
//! generation number, and the reclamation [`Collector`]. Mutation goes through
//! the table; whenever a whole table generation is replaced — growth, explicit
//! compaction, or clearing — the displaced generation is retired with the
//! collector rather than reclaimed on the spot. Every operation takes the
//! caller's [`Guard`], and every operation leaves the set of active guards as
//! it found it.

use vstd::prelude::*;

use crate::reclaim::Collector;
use crate::reclaim::Guard;
use crate::table::ComputeOutcome;
use crate::table::Table;

verus! {

/// The most entries the map accepts; growth then keeps the slot count within
/// machine bounds on every architecture.
pub const MAX_ENTRIES: usize = 0x0800_0000;

/// The slot count of a freshly created or cleared table.
pub const DEFAULT_CAPACITY: usize = 16;

/// The key sequence `ks` enumerates the association's entries exactly once
/// each, and `vs` pairs every position with that entry's value: together they
/// fix the returned values as a multiset, one value per stored entry.
pub open spec fn enumerates_values<V>(m: Map<u64, V>, ks: Seq<u64>, vs: Seq<&V>) -> bool {
    &&& ks.len() == vs.len()
    &&& forall|x: int, y: int| 0 <= x < y < ks.len() ==> ks[x] != ks[y]
    &&& forall|x: int| 0 <= x < ks.len() ==> m.contains_pair(#[trigger] ks[x], *vs[x])
    &&& forall|k: u64|
        #[trigger] m.contains_key(k) ==> exists|x: int| 0 <= x < ks.len() && #[trigger] ks[x] == k
}

/// A key-value map over a tombstone-keeping slot table, with epoch-based
/// retirement of displaced table generations.
pub struct HashMap<V> {
    table: Table<V>,
    count: usize,
    generation: u64,
    collector: Collector,
}

impl<V> View for HashMap<V> {
    type V = Map<u64, V>;

    closed spec fn view(&self) -> Map<u64, V> {
        self.table.spec_map()
    }
}

impl<V> HashMap<V> {
    /// The table is well formed, the counter is exact, and the slot count is
    /// within growth bounds.
    pub closed spec fn well_formed(self) -> bool {
        &&& self.table.wf()
        &&& self.count as nat == self.table.occupied()
        &&& self.table.capacity() <= 2 * MAX_ENTRIES
    }

    /// The pin epochs of the guards currently active on this map.
    pub closed spec fn guards(self) -> Seq<u64> {
        self.collector.active_epochs()
    }

    /// Whether a guard issued by this map is still pinned.
    pub open spec fn guard_active(self, g: Guard) -> bool {
        self.guards().contains(g.epoch())
    }

    /// How many slots the current table generation has.
    pub closed spec fn capacity(self) -> nat {
        self.table.capacity()
    }

    /// The retired objects awaiting reclamation — the generation numbers of
    /// displaced tables, each with the epoch of its retirement.
    pub closed spec fn retired(self) -> Seq<(u64, u64)> {
        self.collector.retired_objects()
    }

    /// The collector's current epoch.
    pub closed spec fn epoch(self) -> u64 {
        self.collector.current_epoch()
    }

    /// The number of the current table generation.
    pub closed spec fn generation_id(self) -> u64 {
        self.generation
    }

    /// A fresh, empty map.
    pub fn new() -> (m: HashMap<V>)
        ensures
            m.well_formed(),
            m@ =~= Map::<u64, V>::empty(),
            m.guards() =~= Seq::<u64>::empty(),
    {
        let table = Table::new(DEFAULT_CAPACITY);
        HashMap { table, count: 0, generation: 0, collector: Collector::new() }
    }

    /// Pin a fresh guard on this map.
    pub fn guard(&mut self) -> (g: Guard)
        requires
            old(self).well_formed(),
        ensures
            final(self).well_formed(),
            final(self)@ == old(self)@,
            final(self).capacity() == old(self).capacity(),
            final(self).guards() == old(self).guards().push(g.epoch()),
            final(self).guard_active(g),
            final(self).retired() == old(self).retired(),
            g.epoch() == old(self).epoch(),
    {
        self.collector.pin()
    }

    /// Release a pinned guard, then reclaim whatever the remaining guards no
    /// longer protect.
    pub fn release(&mut self, g: Guard)
        requires
            old(self).well_formed(),
            old(self).guard_active(g),
        ensures
            final(self).well_formed(),
            final(self)@ == old(self)@,
            final(self).capacity() == old(self).capacity(),
            exists|i: int|
                0 <= i < old(self).guards().len() && old(self).guards()[i] == g.epoch()
                    && final(self).guards() == old(self).guards().remove(i),
            forall|j: int|
                0 <= j < final(self).retired().len() ==> old(self).retired().contains(
                    final(self).retired()[j],
                ),
    {
        self.collector.unpin(g);
        self.collector.advance();
        self.collector.collect();
    }

    /// The number of entries.
    pub fn len(&self) -> (n: usize)
        requires
            self.well_formed(),
        ensures
            n == self@.dom().len(),
            self@.dom().finite(),
    {
        proof {
            self.table.lemma_occupied_is_len();
        }
        self.count
    }

    /// Whether the map holds no entry at all.
    pub fn is_empty(&self) -> (r: bool)
        requires
            self.well_formed(),
        ensures
            r == (self@.dom().len() == 0),
    {
        proof {
            self.table.lemma_occupied_is_len();
        }
        self.count == 0
    }

    /// Whether an entry carries the key.
    pub fn contains_key(&self, key: u64, guard: &Guard) -> (r: bool)
        requires
            self.well_formed(),
            self.guard_active(*guard),
        ensures
            r == self@.contains_key(key),
    {
        self.table.get(key).is_some()
    }

    /// Look the key up; the borrow stays valid while the caller's guard does.
    pub fn get(&self, key: u64, guard: &Guard) -> (r: Option<&V>)
        requires
            self.well_formed(),
            self.guard_active(*guard),
        ensures
            match r {
                Some(v) => self@.contains_key(key) && *v == self@[key],
                None => !self@.contains_key(key),
            },
    {
        self.table.get(key)
    }

    /// Look the key up, handing back the stored key beside the value.
    pub fn get_key_value(&self, key: u64, guard: &Guard) -> (r: Option<(u64, &V)>)
        requires
            self.well_formed(),
            self.guard_active(*guard),
        ensures
            match r {
                Some(kv) => kv.0 == key && self@.contains_key(key) && *kv.1 == self@[key],
                None => !self@.contains_key(key),
            },
    {
        match self.table.get(key) {
            Some(v) => Some((key, v)),
            None => None,
        }
    }

    /// Every entry, in unspecified order.
    pub fn iter(&self, guard: &Guard) -> (r: Vec<(u64, &V)>)
        requires
            self.well_formed(),
            self.guard_active(*guard),
        ensures
            r@.len() == self@.dom().len(),
            forall|x: int|
                0 <= x < r@.len() ==> self@.contains_key(#[trigger] r@[x].0) && *r@[x].1
                    == self@[r@[x].0],
            forall|x: int, y: int| 0 <= x < y < r@.len() ==> r@[x].0 != r@[y].0,
            forall|k: u64|
                #[trigger] self@.contains_key(k) ==> exists|x: int|
                    0 <= x < r@.len() && #[trigger] r@[x].0 == k,
    {
        proof {
            self.table.lemma_occupied_is_len();
        }
        self.table.entries()
    }

    /// Every key, in unspecified order.
    pub fn keys(&self, guard: &Guard) -> (r: Vec<u64>)
        requires
            self.well_formed(),
            self.guard_active(*guard),
        ensures
            r@.len() == self@.dom().len(),
            forall|x: int| 0 <= x < r@.len() ==> self@.contains_key(#[trigger] r@[x]),
            forall|x: int, y: int| 0 <= x < y < r@.len() ==> r@[x] != r@[y],
            forall|k: u64|
                #[trigger] self@.contains_key(k) ==> exists|x: int|
                    0 <= x < r@.len() && #[trigger] r@[x] == k,
    {
        let entries = self.iter(guard);
        let mut r: Vec<u64> = Vec::new();
        let mut i: usize = 0;
        let len = entries.len();
        while i < len
            invariant
                i <= len,
                len == entries@.len(),
                r@.len() == i,
                forall|x: int| 0 <= x < i ==> r@[x] == entries@[x].0,
            decreases len - i,
        {
            let pair = entries[i];
            r.push(pair.0);
            i = i + 1;
        }
        proof {
            assert forall|k: u64| #[trigger] self@.contains_key(k) implies exists|x: int|
                0 <= x < r@.len() && #[trigger] r@[x] == k by {
                let x = choose|x: int| 0 <= x < entries@.len() && #[trigger] entries@[x].0 == k;
                assert(r@[x] == k);
            }
        }
        r
    }

    /// Every value, in unspecified order.
    pub fn values(&self, guard: &Guard) -> (r: Vec<&V>)
        requires
            self.well_formed(),
            self.guard_active(*guard),
        ensures
            r@.len() == self@.dom().len(),
            exists|ks: Seq<u64>| #[trigger] enumerates_values(self@, ks, r@),
            forall|k: u64|
                #[trigger] self@.contains_key(k) ==> exists|x: int|
                    0 <= x < r@.len() && *(#[trigger] r@[x]) == self@[k],
    {
        let entries = self.iter(guard);
        let mut r: Vec<&V> = Vec::new();
        let mut i: usize = 0;
        let len = entries.len();
        while i < len
            invariant
                i <= len,
                len == entries@.len(),
                r@.len() == i,
                forall|x: int| 0 <= x < i ==> r@[x] == entries@[x].1,
            decreases len - i,
        {
            let pair = entries[i];
            r.push(pair.1);
            i = i + 1;
        }
        proof {
            let ks = Seq::new(entries@.len(), |x: int| entries@[x].0);
            assert(enumerates_values(self@, ks, r@)) by {
                assert forall|x: int| 0 <= x < ks.len() implies self@.contains_pair(
                    #[trigger] ks[x],
                    *r@[x],
                ) by {
                    assert(r@[x] == entries@[x].1);
                }
                assert forall|k: u64| #[trigger] self@.contains_key(k) implies exists|x: int|
                    0 <= x < ks.len() && #[trigger] ks[x] == k by {
                    let x = choose|x: int|
                        0 <= x < entries@.len() && #[trigger] entries@[x].0 == k;
                    assert(ks[x] == k);
                }
            }
            assert forall|k: u64| #[trigger] self@.contains_key(k) implies exists|x: int|
                0 <= x < r@.len() && *(#[trigger] r@[x]) == self@[k] by {
                let x = choose|x: int| 0 <= x < entries@.len() && #[trigger] entries@[x].0 == k;
                assert(*r@[x] == self@[k]);
            }
        }
        r
    }

    /// Grow ahead of need so that `additional` more entries fit without a
    /// reactive resize.
    pub fn reserve(&mut self, additional: usize, guard: &Guard)
        requires
            old(self).well_formed(),
            old(self).guard_active(*guard),
            old(self)@.dom().len() + additional <= MAX_ENTRIES,
        ensures
            final(self).well_formed(),
            final(self)@ == old(self)@,
            final(self).guards() == old(self).guards(),
            final(self).capacity() >= 2 * (old(self)@.dom().len() + additional),
            final(self).retired() == if old(self).capacity() < 2 * (old(self)@.dom().len()
                + additional) {
                old(self).retired().push((old(self).generation_id(), old(self).epoch()))
            } else {
                old(self).retired()
            },
    {
        proof {
            self.table.lemma_occupied_is_len();
        }
        let needed = self.count + additional;
        let cap = self.table.capacity_len();
        if cap < 2 * needed {
            self.table.rebuild(2 * needed);
            self.retire_generation();
        }
    }

    /// Hand the displaced table generation to the collector and step to the
    /// next one; the generation number saturates rather than wraps.
    fn retire_generation(&mut self)
        ensures
            final(self).table == old(self).table,
            final(self).count == old(self).count,
            final(self).guards() == old(self).guards(),
            final(self).retired() == old(self).retired().push(
                (old(self).generation_id(), old(self).epoch()),
            ),
            final(self).generation_id() == if old(self).generation_id() < u64::MAX {
                (old(self).generation_id() + 1) as u64
            } else {
                old(self).generation_id()
            },
    {
        let g = self.generation;
        self.collector.retire(g);
        if self.generation < u64::MAX {
            self.generation = self.generation + 1;
        }
    }

    /// Store an entry, handing back the value it displaces, if any. Crossing
    /// the load threshold first rebuilds into a larger table generation and
    /// retires the displaced one.
    pub fn insert(&mut self, key: u64, value: V, guard: &Guard) -> (prev: Option<V>)
        requires
            old(self).well_formed(),
            old(self).guard_active(*guard),
            old(self)@.dom().len() < MAX_ENTRIES,
        ensures
            final(self).well_formed(),
            final(self)@ =~= old(self)@.insert(key, value),
            final(self).guards() == old(self).guards(),
            final(self).retired() == if 2 * (old(self)@.dom().len() + 1) > old(self).capacity() {
                old(self).retired().push((old(self).generation_id(), old(self).epoch()))
            } else {
                old(self).retired()
            },
            match prev {
                Some(p) => old(self)@.contains_key(key) && p == old(self)@[key],
                None => !old(self)@.contains_key(key),
            },
    {
        proof {
            self.table.lemma_occupied_is_len();
        }
        let cap = self.table.capacity_len();
        if 2 * (self.count + 1) > cap {
            self.table.rebuild(2 * (self.count + 1));
            self.retire_generation();
        }
        let prev = self.table.insert(key, value);
        if prev.is_none() {
            self.count = self.count + 1;
        }
        prev
    }

    /// Store an entry unless the key is already taken, in which case nothing
    /// changes and the value comes back.
    pub fn try_insert(&mut self, key: u64, value: V, guard: &Guard) -> (r: Result<(), V>)
        requires
            old(self).well_formed(),
            old(self).guard_active(*guard),
            old(self)@.dom().len() < MAX_ENTRIES,
        ensures
            final(self).well_formed(),
            final(self).guards() == old(self).guards(),
            match r {
                Ok(()) => !old(self)@.contains_key(key) && final(self)@ =~= old(self)@.insert(
                    key,
                    value,
                ) && final(self).retired() == if 2 * (old(self)@.dom().len() + 1) > old(
                    self,
                ).capacity() {
                    old(self).retired().push((old(self).generation_id(), old(self).epoch()))
                } else {
                    old(self).retired()
                },
                Err(v) => old(self)@.contains_key(key) && v == value && final(self)@ == old(self)@
                    && final(self).retired() == old(self).retired(),
            },
    {
        if self.contains_key(key, guard) {
            return Err(value);
        }
        self.insert(key, value, guard);
        Ok(())
    }

    /// Conditionally update the entry carrying `key`: the remapping sees the
    /// key and the current value and either supplies a replacement or removes
    /// the entry. Absent keys are reported, not created.
    pub fn compute_if_present<F: FnOnce(&u64, &V) -> Option<V>>(
        &mut self,
        key: u64,
        f: F,
        guard: &Guard,
    ) -> (r: ComputeOutcome<V>)
        requires
            old(self).well_formed(),
            old(self).guard_active(*guard),
            old(self)@.contains_key(key) ==> call_requires(f, (&key, &old(self)@[key])),
        ensures
            final(self).well_formed(),
            final(self).guards() == old(self).guards(),
            final(self).retired() == old(self).retired(),
            match r {
                ComputeOutcome::Absent => {
                    &&& !old(self)@.contains_key(key)
                    &&& final(self)@ =~= old(self)@
                },
                ComputeOutcome::Removed(v0) => {
                    &&& old(self)@.contains_key(key)
                    &&& v0 == old(self)@[key]
                    &&& call_ensures(f, (&key, &old(self)@[key]), Option::<V>::None)
                    &&& final(self)@ =~= old(self)@.remove(key)
                },
                ComputeOutcome::Updated(v0) => {
                    &&& old(self)@.contains_key(key)
                    &&& v0 == old(self)@[key]
                    &&& final(self)@.contains_key(key)
                    &&& call_ensures(f, (&key, &old(self)@[key]), Some(final(self)@[key]))
                    &&& final(self)@ =~= old(self)@.insert(key, final(self)@[key])
                },
            },
    {
        let r = self.table.compute(key, f);
        match &r {
            ComputeOutcome::Removed(_) => {
                self.count = self.count - 1;
            },
            _ => {},
        }
        r
    }

    /// Remove the entry carrying the key, handing its value back.
    pub fn remove(&mut self, key: u64, guard: &Guard) -> (prev: Option<V>)
        requires
            old(self).well_formed(),
            old(self).guard_active(*guard),
        ensures
            final(self).well_formed(),
            final(self)@ =~= old(self)@.remove(key),
            final(self).guards() == old(self).guards(),
            final(self).capacity() == old(self).capacity(),
            final(self).retired() == old(self).retired(),
            match prev {
                Some(p) => old(self)@.contains_key(key) && p == old(self)@[key],
                None => !old(self)@.contains_key(key),
            },
    {
        let prev = self.table.remove(key);
        if prev.is_some() {
            self.count = self.count - 1;
        }
        prev
    }

    /// Remove the entry carrying the key, handing back the key and the value.
    pub fn remove_entry(&mut self, key: u64, guard: &Guard) -> (prev: Option<(u64, V)>)
        requires
            old(self).well_formed(),
            old(self).guard_active(*guard),
        ensures
            final(self).well_formed(),
            final(self)@ =~= old(self)@.remove(key),
            final(self).guards() == old(self).guards(),
            final(self).retired() == old(self).retired(),
            match prev {
                Some(kv) => kv.0 == key && old(self)@.contains_key(key) && kv.1 == old(
                    self,
                )@[key],
                None => !old(self)@.contains_key(key),
            },
    {
        match self.remove(key, guard) {
            Some(v) => Some((key, v)),
            None => None,
        }
    }

    /// Drop every entry the predicate rejects, leaving tombstones in place;
    /// the table is not compacted.
    pub fn retain<F: Fn(&u64, &V) -> bool>(&mut self, f: F, guard: &Guard)
        requires
            old(self).well_formed(),
            old(self).guard_active(*guard),
            forall|k: u64, v: V| old(self)@.contains_pair(k, v) ==> call_requires(f, (&k, &v)),
        ensures
            final(self).well_formed(),
            final(self).guards() == old(self).guards(),
            final(self).capacity() == old(self).capacity(),
            final(self).retired() == old(self).retired(),
            forall|k: u64|
                #[trigger] final(self)@.contains_key(k) ==> old(self)@.contains_key(k)
                    && final(self)@[k] == old(self)@[k],
            forall|k: u64|
                #[trigger] old(self)@.contains_key(k) ==> ({
                    ||| final(self)@.contains_key(k) && call_ensures(
                        f,
                        (&k, &old(self)@[k]),
                        true,
                    )
                    ||| !final(self)@.contains_key(k) && call_ensures(
                        f,
                        (&k, &old(self)@[k]),
                        false,
                    )
                }),
    {
        proof {
            assert forall|k: u64, v: V|
                self.table.spec_map().contains_pair(k, v) implies call_requires(f, (&k, &v)) by {
                assert(old(self)@.contains_pair(k, v));
            }
        }
        self.table.retain(f);
        self.count = self.table.occupied_count();
    }

    /// Drop every entry the predicate rejects, then immediately rebuild a
    /// tightly packed table: afterwards the capacity is exactly the number of
    /// surviving entries, and no larger than before.
    pub fn retain_force<F: Fn(&u64, &V) -> bool>(&mut self, f: F, guard: &Guard)
        requires
            old(self).well_formed(),
            old(self).guard_active(*guard),
            forall|k: u64, v: V| old(self)@.contains_pair(k, v) ==> call_requires(f, (&k, &v)),
        ensures
            final(self).well_formed(),
            final(self).guards() == old(self).guards(),
            final(self).capacity() == final(self)@.dom().len(),
            final(self).capacity() <= old(self).capacity(),
            final(self).retired() == old(self).retired().push(
                (old(self).generation_id(), old(self).epoch()),
            ),
            forall|k: u64|
                #[trigger] final(self)@.contains_key(k) ==> old(self)@.contains_key(k)
                    && final(self)@[k] == old(self)@[k],
            forall|k: u64|
                #[trigger] old(self)@.contains_key(k) ==> ({
                    ||| final(self)@.contains_key(k) && call_ensures(
                        f,
                        (&k, &old(self)@[k]),
                        true,
                    )
                    ||| !final(self)@.contains_key(k) && call_ensures(
                        f,
                        (&k, &old(self)@[k]),
                        false,
                    )
                }),
    {
        proof {
            assert forall|k: u64, v: V|
                self.table.spec_map().contains_pair(k, v) implies call_requires(f, (&k, &v)) by {
                assert(old(self)@.contains_pair(k, v));
            }
        }
        self.table.retain(f);
        proof {
            self.table.lemma_occupied_is_len();
        }
        self.table.rebuild(0);
        self.count = self.table.occupied_count();
        self.retire_generation();
    }

    /// Swap in a fresh, empty table generation; the displaced generation goes
    /// to the collector.
    pub fn clear(&mut self, guard: &Guard)
        requires
            old(self).well_formed(),
            old(self).guard_active(*guard),
        ensures
            final(self).well_formed(),
            final(self)@ =~= Map::<u64, V>::empty(),
            final(self).guards() == old(self).guards(),
            final(self).retired() == old(self).retired().push(
                (old(self).generation_id(), old(self).epoch()),
            ),
    {
        self.table = Table::new(DEFAULT_CAPACITY);
        self.count = 0;
        self.retire_generation();
    }
}

} // verus!
