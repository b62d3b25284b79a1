//! The guarded view.
//!
//! A [`HashMapRef`] binds a guard — owned after [`HashMap::pin`], or copied
//! from a caller-supplied guard after [`HashMap::with_guard`] — to a map and
//! forwards every operation, supplying the guard automatically. While the view
//! exists its guard stays pinned, so nothing the caller borrowed out of the
//! map is reclaimed; [`HashMapRef::unpin`] dismantles the view, releases an
//! owned guard and hands the map back.

use vstd::prelude::*;
use vstd::std_specs::cmp::PartialEqSpec;

use crate::map::HashMap;
use crate::map::MAX_ENTRIES;
use crate::map::enumerates_values;
use crate::reclaim::Guard;
use crate::reclaim::GuardRef;
use crate::table::ComputeOutcome;

verus! {

/// The failure payload of [`HashMapRef::try_insert`]: the key was already
/// taken, nothing changed, and the value comes back to the caller. Verus
/// cannot return a borrow of the existing value beside the mutable borrow the
/// call holds, so the caller reads the occupying value with
/// [`HashMapRef::get`]; the contract of `try_insert` guarantees it is
/// unchanged.
pub struct TryInsertError<V> {
    /// The value whose insertion was declined.
    pub not_inserted: V,
}

/// The two association maps have the same keys and, key by key, values that
/// compare equal under the value type's equality.
pub open spec fn maps_agree<V: PartialEq>(a: Map<u64, V>, b: Map<u64, V>) -> bool {
    &&& a.dom() =~= b.dom()
    &&& forall|k: u64| #[trigger] a.dom().contains(k) ==> a[k].eq_spec(&b[k])
}

/// A reference to a [`HashMap`] with a guard attached, constructed with
/// [`HashMap::pin`] or [`HashMap::with_guard`].
pub struct HashMapRef<V> {
    map: HashMap<V>,
    guard: GuardRef,
}

impl<V> HashMap<V> {
    /// Take this map pinned: a fresh guard is registered and attached, and
    /// stays pinned until the view is dismantled.
    pub fn pin(self) -> (r: HashMapRef<V>)
        requires
            self.well_formed(),
        ensures
            r.well_formed(),
            r@ == self@,
            r.owns_guard(),
            r.guard_epoch() == self.epoch(),
            r.guards() == self.guards().push(r.guard_epoch()),
            r.retired() == self.retired(),
    {
        let mut map = self;
        let g = map.guard();
        HashMapRef { map, guard: GuardRef::Owned(g) }
    }

    /// Take this map with the caller's own guard attached; dismantling the
    /// view will not release that guard.
    pub fn with_guard(self, guard: &Guard) -> (r: HashMapRef<V>)
        requires
            self.well_formed(),
            self.guard_active(*guard),
        ensures
            r.well_formed(),
            r@ == self@,
            !r.owns_guard(),
            r.guard_epoch() == guard.epoch(),
            r.guards() == self.guards(),
            r.retired() == self.retired(),
    {
        HashMapRef { map: self, guard: GuardRef::borrowed(guard) }
    }

    /// Compare two maps entry by entry, each under its own pinned guard,
    /// short-circuiting on a length mismatch.
    pub fn guarded_eq(&self, other: &HashMap<V>, g1: &Guard, g2: &Guard) -> (r: bool) where
        V: PartialEq,

        requires
            self.well_formed(),
            other.well_formed(),
            self.guard_active(*g1),
            other.guard_active(*g2),
        ensures
            V::obeys_eq_spec() ==> r == maps_agree(self@, other@),
    {
        if self.len() != other.len() {
            proof {
                if self@.dom() =~= other@.dom() {
                    assert(self@.dom().len() == other@.dom().len());
                }
            }
            return false;
        }
        let entries = self.iter(g1);
        let len = entries.len();
        let mut i: usize = 0;
        while i < len
            invariant
                self.well_formed(),
                other.well_formed(),
                other.guard_active(*g2),
                i <= len,
                len == entries@.len(),
                len == self@.dom().len(),
                self@.dom().len() == other@.dom().len(),
                self@.dom().finite(),
                other@.dom().finite(),
                forall|x: int|
                    0 <= x < entries@.len() ==> self@.contains_key(#[trigger] entries@[x].0)
                        && *entries@[x].1 == self@[entries@[x].0],
                forall|x: int, y: int|
                    0 <= x < y < entries@.len() ==> entries@[x].0 != entries@[y].0,
                forall|k: u64|
                    #[trigger] self@.contains_key(k) ==> exists|x: int|
                        0 <= x < entries@.len() && #[trigger] entries@[x].0 == k,
                forall|x: int|
                    0 <= x < i ==> other@.contains_key(#[trigger] entries@[x].0),
                V::obeys_eq_spec() ==> forall|x: int|
                    0 <= x < i ==> self@[(#[trigger] entries@[x]).0].eq_spec(
                        &other@[entries@[x].0],
                    ),
            decreases len - i,
        {
            let pair = entries[i];
            match other.get(pair.0, g2) {
                None => {
                    proof {
                        if V::obeys_eq_spec() && maps_agree(self@, other@) {
                            assert(other@.dom().contains(pair.0));
                        }
                    }
                    return false;
                },
                Some(w) => {
                    if pair.1.ne(w) {
                        proof {
                            if V::obeys_eq_spec() && maps_agree(self@, other@) {
                                assert(self@.dom().contains(pair.0));
                                assert(self@[pair.0].eq_spec(&other@[pair.0]));
                            }
                        }
                        return false;
                    }
                },
            }
            i = i + 1;
        }
        proof {
            if V::obeys_eq_spec() {
                assert forall|k: u64| self@.dom().contains(k) implies other@.dom().contains(
                    k,
                ) by {
                    let x = choose|x: int|
                        0 <= x < entries@.len() && #[trigger] entries@[x].0 == k;
                    assert(other@.contains_key(entries@[x].0));
                }
                vstd::set_lib::lemma_subset_equality(self@.dom(), other@.dom());
                assert forall|k: u64| #[trigger] self@.dom().contains(k) implies (
                self@[k].eq_spec(&other@[k])) by {
                    let x = choose|x: int|
                        0 <= x < entries@.len() && #[trigger] entries@[x].0 == k;
                    assert(self@[entries@[x].0].eq_spec(&other@[entries@[x].0]));
                }
            }
        }
        true
    }
}

impl<V> View for HashMapRef<V> {
    type V = Map<u64, V>;

    closed spec fn view(&self) -> Map<u64, V> {
        self.map@
    }
}

impl<V> HashMapRef<V> {
    /// The map is well formed and the attached guard is still pinned.
    pub closed spec fn well_formed(self) -> bool {
        &&& self.map.well_formed()
        &&& self.map.guard_active(self.guard.guard())
    }

    /// How many slots the current table generation has.
    pub closed spec fn capacity(self) -> nat {
        self.map.capacity()
    }

    /// The view holds its own pinned guard, to be released when the view is
    /// dismantled; over a borrowed guard the view releases nothing.
    pub closed spec fn owns_guard(self) -> bool {
        self.guard is Owned
    }

    /// The pin epoch of the attached guard.
    pub closed spec fn guard_epoch(self) -> u64 {
        self.guard.guard().epoch()
    }

    /// The pin epochs of the guards active on the underlying map.
    pub closed spec fn guards(self) -> Seq<u64> {
        self.map.guards()
    }

    /// The retired table generations of the underlying map.
    pub closed spec fn retired(self) -> Seq<(u64, u64)> {
        self.map.retired()
    }

    /// The number of the underlying map's current table generation.
    pub closed spec fn generation_id(self) -> u64 {
        self.map.generation_id()
    }

    /// The underlying map's current epoch.
    pub closed spec fn epoch(self) -> u64 {
        self.map.epoch()
    }

    /// The attached guard and the map's registry of active guards are as
    /// they were.
    pub open spec fn guard_unchanged(pre: Self, post: Self) -> bool {
        &&& post.guards() == pre.guards()
        &&& post.owns_guard() == pre.owns_guard()
        &&& post.guard_epoch() == pre.guard_epoch()
    }

    /// Dismantle the view: an owned guard is released (and whatever no guard
    /// protects any more is reclaimed), a borrowed one is left to its owner.
    pub fn unpin(self) -> (m: HashMap<V>)
        requires
            self.well_formed(),
        ensures
            m.well_formed(),
            m@ == self@,
            self.owns_guard() ==> exists|i: int|
                0 <= i < self.guards().len() && self.guards()[i] == self.guard_epoch()
                    && m.guards() == self.guards().remove(i),
            !self.owns_guard() ==> m.guards() == self.guards() && m.retired() == self.retired(),
            forall|j: int|
                0 <= j < m.retired().len() ==> self.retired().contains(m.retired()[j]),
    {
        let HashMapRef { mut map, guard } = self;
        match guard {
            GuardRef::Owned(g) => {
                let ghost pre = map;
                map.release(g);
                proof {
                    let i = choose|i: int|
                        0 <= i < pre.guards().len() && pre.guards()[i] == g.epoch()
                            && map.guards() == pre.guards().remove(i);
                    assert(0 <= i < self.guards().len() && self.guards()[i]
                        == self.guard_epoch() && map.guards() == self.guards().remove(i));
                }
            },
            GuardRef::Borrowed(_) => {},
        }
        map
    }

    /// The number of entries.
    pub fn len(&self) -> (n: usize)
        requires
            self.well_formed(),
        ensures
            n == self@.dom().len(),
            self@.dom().finite(),
    {
        self.map.len()
    }

    /// Whether the map holds no entry at all.
    pub fn is_empty(&self) -> (r: bool)
        requires
            self.well_formed(),
        ensures
            r == (self@.dom().len() == 0),
    {
        self.map.is_empty()
    }

    /// Every entry, in unspecified order; the borrows stay valid while this
    /// view's guard does.
    pub fn iter(&self) -> (r: Vec<(u64, &V)>)
        requires
            self.well_formed(),
        ensures
            r@.len() == self@.dom().len(),
            forall|x: int|
                0 <= x < r@.len() ==> self@.contains_key(#[trigger] r@[x].0) && *r@[x].1
                    == self@[r@[x].0],
            forall|x: int, y: int| 0 <= x < y < r@.len() ==> r@[x].0 != r@[y].0,
            forall|k: u64|
                #[trigger] self@.contains_key(k) ==> exists|x: int|
                    0 <= x < r@.len() && #[trigger] r@[x].0 == k,
    {
        self.map.iter(self.guard.token())
    }

    /// Every key, in unspecified order.
    pub fn keys(&self) -> (r: Vec<u64>)
        requires
            self.well_formed(),
        ensures
            r@.len() == self@.dom().len(),
            forall|x: int| 0 <= x < r@.len() ==> self@.contains_key(#[trigger] r@[x]),
            forall|x: int, y: int| 0 <= x < y < r@.len() ==> r@[x] != r@[y],
            forall|k: u64|
                #[trigger] self@.contains_key(k) ==> exists|x: int|
                    0 <= x < r@.len() && #[trigger] r@[x] == k,
    {
        self.map.keys(self.guard.token())
    }

    /// Every value, in unspecified order.
    pub fn values(&self) -> (r: Vec<&V>)
        requires
            self.well_formed(),
        ensures
            r@.len() == self@.dom().len(),
            exists|ks: Seq<u64>| #[trigger] enumerates_values(self@, ks, r@),
            forall|k: u64|
                #[trigger] self@.contains_key(k) ==> exists|x: int|
                    0 <= x < r@.len() && *(#[trigger] r@[x]) == self@[k],
    {
        let r = self.map.values(self.guard.token());
        proof {
            let ks = choose|ks: Seq<u64>| #[trigger] enumerates_values(self.map@, ks, r@);
            assert(enumerates_values(self@, ks, r@));
        }
        r
    }

    /// Grow ahead of need so that `additional` more entries fit without a
    /// reactive resize.
    pub fn reserve(&mut self, additional: usize)
        requires
            old(self).well_formed(),
            old(self)@.dom().len() + additional <= MAX_ENTRIES,
        ensures
            final(self).well_formed(),
            final(self)@ == old(self)@,
            final(self).capacity() >= 2 * (old(self)@.dom().len() + additional),
            HashMapRef::guard_unchanged(*old(self), *final(self)),
            final(self).retired() == if old(self).capacity() < 2 * (old(self)@.dom().len()
                + additional) {
                old(self).retired().push((old(self).generation_id(), old(self).epoch()))
            } else {
                old(self).retired()
            },
    {
        self.map.reserve(additional, self.guard.token())
    }

    /// Whether an entry carries the key.
    pub fn contains_key(&self, key: u64) -> (r: bool)
        requires
            self.well_formed(),
        ensures
            r == self@.contains_key(key),
    {
        self.map.contains_key(key, self.guard.token())
    }

    /// Look the key up; the borrow stays valid while this view's guard does.
    pub fn get(&self, key: u64) -> (r: Option<&V>)
        requires
            self.well_formed(),
        ensures
            match r {
                Some(v) => self@.contains_key(key) && *v == self@[key],
                None => !self@.contains_key(key),
            },
    {
        self.map.get(key, self.guard.token())
    }

    /// Look the key up, handing back the stored key beside the value.
    pub fn get_key_value(&self, key: u64) -> (r: Option<(u64, &V)>)
        requires
            self.well_formed(),
        ensures
            match r {
                Some(kv) => kv.0 == key && self@.contains_key(key) && *kv.1 == self@[key],
                None => !self@.contains_key(key),
            },
    {
        self.map.get_key_value(key, self.guard.token())
    }

    /// Swap in a fresh, empty table generation; the displaced generation goes
    /// to the collector.
    pub fn clear(&mut self)
        requires
            old(self).well_formed(),
        ensures
            final(self).well_formed(),
            final(self)@ =~= Map::<u64, V>::empty(),
            HashMapRef::guard_unchanged(*old(self), *final(self)),
            final(self).retired() == old(self).retired().push(
                (old(self).generation_id(), old(self).epoch()),
            ),
    {
        self.map.clear(self.guard.token())
    }

    /// Store an entry, handing back the value it displaces, if any.
    pub fn insert(&mut self, key: u64, value: V) -> (prev: Option<V>)
        requires
            old(self).well_formed(),
            old(self)@.dom().len() < MAX_ENTRIES,
        ensures
            final(self).well_formed(),
            final(self)@ =~= old(self)@.insert(key, value),
            HashMapRef::guard_unchanged(*old(self), *final(self)),
            final(self).retired() == if 2 * (old(self)@.dom().len() + 1) > old(self).capacity() {
                old(self).retired().push((old(self).generation_id(), old(self).epoch()))
            } else {
                old(self).retired()
            },
            match prev {
                Some(p) => old(self)@.contains_key(key) && p == old(self)@[key],
                None => !old(self)@.contains_key(key),
            },
    {
        self.map.insert(key, value, self.guard.token())
    }

    /// Store an entry unless the key is already taken, in which case nothing
    /// changes and the value comes back inside the error.
    pub fn try_insert(&mut self, key: u64, value: V) -> (r: Result<(), TryInsertError<V>>)
        requires
            old(self).well_formed(),
            old(self)@.dom().len() < MAX_ENTRIES,
        ensures
            final(self).well_formed(),
            HashMapRef::guard_unchanged(*old(self), *final(self)),
            match r {
                Ok(()) => !old(self)@.contains_key(key) && final(self)@ =~= old(self)@.insert(
                    key,
                    value,
                ),
                Err(e) => old(self)@.contains_key(key) && e.not_inserted == value && final(self)@
                    == old(self)@ && final(self).retired() == old(self).retired(),
            },
    {
        match self.map.try_insert(key, value, self.guard.token()) {
            Ok(()) => Ok(()),
            Err(v) => Err(TryInsertError { not_inserted: v }),
        }
    }

    /// Conditionally update the entry carrying `key`, if any: the remapping
    /// sees the key and the current value and either supplies a replacement
    /// or removes the entry. Absent keys are reported, not created.
    pub fn compute_if_present<F: FnOnce(&u64, &V) -> Option<V>>(&mut self, key: u64, f: F) -> (r:
        ComputeOutcome<V>)
        requires
            old(self).well_formed(),
            old(self)@.contains_key(key) ==> call_requires(f, (&key, &old(self)@[key])),
        ensures
            final(self).well_formed(),
            HashMapRef::guard_unchanged(*old(self), *final(self)),
            final(self).retired() == old(self).retired(),
            match r {
                ComputeOutcome::Absent => {
                    &&& !old(self)@.contains_key(key)
                    &&& final(self)@ =~= old(self)@
                },
                ComputeOutcome::Removed(v0) => {
                    &&& old(self)@.contains_key(key)
                    &&& v0 == old(self)@[key]
                    &&& call_ensures(f, (&key, &old(self)@[key]), Option::<V>::None)
                    &&& final(self)@ =~= old(self)@.remove(key)
                },
                ComputeOutcome::Updated(v0) => {
                    &&& old(self)@.contains_key(key)
                    &&& v0 == old(self)@[key]
                    &&& final(self)@.contains_key(key)
                    &&& call_ensures(f, (&key, &old(self)@[key]), Some(final(self)@[key]))
                    &&& final(self)@ =~= old(self)@.insert(key, final(self)@[key])
                },
            },
    {
        self.map.compute_if_present(key, f, self.guard.token())
    }

    /// Remove the entry carrying the key, handing its value back.
    pub fn remove(&mut self, key: u64) -> (prev: Option<V>)
        requires
            old(self).well_formed(),
        ensures
            final(self).well_formed(),
            final(self)@ =~= old(self)@.remove(key),
            HashMapRef::guard_unchanged(*old(self), *final(self)),
            final(self).retired() == old(self).retired(),
            match prev {
                Some(p) => old(self)@.contains_key(key) && p == old(self)@[key],
                None => !old(self)@.contains_key(key),
            },
    {
        self.map.remove(key, self.guard.token())
    }

    /// Remove the entry carrying the key, handing back the key and the value.
    pub fn remove_entry(&mut self, key: u64) -> (prev: Option<(u64, V)>)
        requires
            old(self).well_formed(),
        ensures
            final(self).well_formed(),
            final(self)@ =~= old(self)@.remove(key),
            HashMapRef::guard_unchanged(*old(self), *final(self)),
            final(self).retired() == old(self).retired(),
            match prev {
                Some(kv) => kv.0 == key && old(self)@.contains_key(key) && kv.1 == old(self)@[key],
                None => !old(self)@.contains_key(key),
            },
    {
        self.map.remove_entry(key, self.guard.token())
    }

    /// Drop every entry the predicate rejects, leaving tombstones in place;
    /// the table is not compacted.
    pub fn retain<F: Fn(&u64, &V) -> bool>(&mut self, f: F)
        requires
            old(self).well_formed(),
            forall|k: u64, v: V| old(self)@.contains_pair(k, v) ==> call_requires(f, (&k, &v)),
        ensures
            final(self).well_formed(),
            final(self).capacity() == old(self).capacity(),
            HashMapRef::guard_unchanged(*old(self), *final(self)),
            final(self).retired() == old(self).retired(),
            forall|k: u64|
                #[trigger] final(self)@.contains_key(k) ==> old(self)@.contains_key(k)
                    && final(self)@[k] == old(self)@[k],
            forall|k: u64|
                #[trigger] old(self)@.contains_key(k) ==> ({
                    ||| final(self)@.contains_key(k) && call_ensures(f, (&k, &old(self)@[k]), true)
                    ||| !final(self)@.contains_key(k) && call_ensures(
                        f,
                        (&k, &old(self)@[k]),
                        false,
                    )
                }),
    {
        proof {
            assert forall|k: u64, v: V| self.map@.contains_pair(k, v) implies call_requires(
                f,
                (&k, &v),
            ) by {
                assert(old(self)@.contains_pair(k, v));
            }
        }
        self.map.retain(f, self.guard.token())
    }

    /// Drop every entry the predicate rejects, then immediately rebuild a
    /// tightly packed table: afterwards the capacity is exactly the number of
    /// surviving entries, and no larger than before.
    pub fn retain_force<F: Fn(&u64, &V) -> bool>(&mut self, f: F)
        requires
            old(self).well_formed(),
            forall|k: u64, v: V| old(self)@.contains_pair(k, v) ==> call_requires(f, (&k, &v)),
        ensures
            final(self).well_formed(),
            final(self).capacity() == final(self)@.dom().len(),
            final(self).capacity() <= old(self).capacity(),
            HashMapRef::guard_unchanged(*old(self), *final(self)),
            final(self).retired() == old(self).retired().push(
                (old(self).generation_id(), old(self).epoch()),
            ),
            forall|k: u64|
                #[trigger] final(self)@.contains_key(k) ==> old(self)@.contains_key(k)
                    && final(self)@[k] == old(self)@[k],
            forall|k: u64|
                #[trigger] old(self)@.contains_key(k) ==> ({
                    ||| final(self)@.contains_key(k) && call_ensures(f, (&k, &old(self)@[k]), true)
                    ||| !final(self)@.contains_key(k) && call_ensures(
                        f,
                        (&k, &old(self)@[k]),
                        false,
                    )
                }),
    {
        proof {
            assert forall|k: u64, v: V| self.map@.contains_pair(k, v) implies call_requires(
                f,
                (&k, &v),
            ) by {
                assert(old(self)@.contains_pair(k, v));
            }
        }
        self.map.retain_force(f, self.guard.token())
    }

    /// Compare with a map that is not pinned yet: a fresh guard is pinned on
    /// it for the duration of the comparison and released afterwards.
    pub fn eq_map(&self, other: &mut HashMap<V>) -> (r: bool) where V: PartialEq
        requires
            self.well_formed(),
            old(other).well_formed(),
        ensures
            final(other).well_formed(),
            final(other)@ == old(other)@,
            V::obeys_eq_spec() ==> r == maps_agree(self@, old(other)@),
    {
        let g = other.guard();
        let r = self.map.guarded_eq(other, self.guard.token(), &g);
        other.release(g);
        r
    }

    /// Compare with another guarded view: same keys, values equal under the
    /// value type's equality.
    pub fn guarded_eq(&self, other: &HashMapRef<V>) -> (r: bool) where V: PartialEq
        requires
            self.well_formed(),
            other.well_formed(),
        ensures
            V::obeys_eq_spec() ==> r == maps_agree(self@, other@),
    {
        self.map.guarded_eq(&other.map, self.guard.token(), other.guard.token())
    }
}

} // verus!
