//! Epoch-based reclamation scopes.
//!
//! A [`Collector`] tracks a monotonically advancing epoch, the pin epochs of
//! every active [`Guard`], and a queue of retired objects tagged with the
//! epoch at which each was retired. An object leaves the queue only through
//! [`Collector::collect`], and only once its retirement epoch is strictly
//! older than the pin epoch of every guard still active.

use vstd::prelude::*;

verus! {

broadcast use vstd::seq_lib::group_filter_ensures;

/// A reclamation-scope token. While a guard stays registered with the
/// collector that issued it, no object retired at or after the guard's pin
/// epoch is reclaimed.
pub struct Guard {
    epoch: u64,
}

impl Guard {
    /// The epoch at which this guard was pinned.
    pub closed spec fn epoch(self) -> u64 {
        self.epoch
    }
}

/// A guard held by a map view: either owned by the view, released when the
/// view is dismantled, or a copy of a caller-supplied guard's token, released
/// by nobody but the caller.
pub enum GuardRef {
    Owned(Guard),
    Borrowed(Guard),
}

impl GuardRef {
    /// The guard token carried, whichever way it is held.
    pub open spec fn guard(self) -> Guard {
        match self {
            GuardRef::Owned(g) => g,
            GuardRef::Borrowed(g) => g,
        }
    }

    /// Borrow the carried guard token.
    pub fn token(&self) -> (g: &Guard)
        ensures
            *g == self.guard(),
    {
        match self {
            GuardRef::Owned(g) => g,
            GuardRef::Borrowed(g) => g,
        }
    }

    /// Wrap a caller-supplied guard, copying its token; releasing the wrapper
    /// must not release the caller's registration.
    pub fn borrowed(g: &Guard) -> (r: GuardRef)
        ensures
            r == GuardRef::Borrowed(*g),
    {
        GuardRef::Borrowed(Guard { epoch: g.epoch })
    }
}

/// Everything a filter keeps comes from the source sequence.
proof fn lemma_filter_members<A>(s: Seq<A>, pred: spec_fn(A) -> bool)
    ensures
        forall|j: int| 0 <= j < s.filter(pred).len() ==> s.contains(#[trigger] s.filter(pred)[j]),
    decreases s.len(),
{
    reveal(Seq::filter);
    if s.len() > 0 {
        lemma_filter_members(s.drop_last(), pred);
        assert forall|j: int| 0 <= j < s.filter(pred).len() implies s.contains(
            #[trigger] s.filter(pred)[j],
        ) by {
            let sub = s.drop_last().filter(pred);
            if j < sub.len() {
                assert(s.filter(pred)[j] == sub[j]);
                let w = choose|w: int|
                    0 <= w < s.drop_last().len() && #[trigger] s.drop_last()[w] == sub[j];
                assert(s[w] == sub[j]);
            } else {
                assert(s.filter(pred)[j] == s.last());
                assert(s[s.len() - 1] == s.last());
            }
        }
    }
}

/// The reclamation registry: the current epoch, the pin epochs of the active
/// guards, and the retired objects awaiting reclamation, each tagged with the
/// epoch at which it was retired.
pub struct Collector {
    epoch: u64,
    active: Vec<u64>,
    retired: Vec<(u64, u64)>,
}

impl Collector {
    /// The current epoch.
    pub closed spec fn current_epoch(self) -> u64 {
        self.epoch
    }

    /// The pin epochs of the guards currently registered, one entry per pin.
    pub closed spec fn active_epochs(self) -> Seq<u64> {
        self.active@
    }

    /// The retired objects still awaiting reclamation, each with the epoch at
    /// which it was retired.
    pub closed spec fn retired_objects(self) -> Seq<(u64, u64)> {
        self.retired@
    }

    /// Whether a guard's registration is still live.
    pub open spec fn guard_active(self, g: Guard) -> bool {
        self.active_epochs().contains(g.epoch())
    }

    /// An object retired at epoch `re` is protected while some active guard
    /// was pinned at or before `re`.
    pub open spec fn protected(self, re: u64) -> bool {
        exists|i: int| 0 <= i < self.active_epochs().len() && self.active_epochs()[i] <= re
    }

    /// A fresh collector: epoch zero, no active guards, nothing retired.
    pub fn new() -> (c: Collector)
        ensures
            c.active_epochs() =~= Seq::<u64>::empty(),
            c.retired_objects() =~= Seq::<(u64, u64)>::empty(),
    {
        Collector { epoch: 0, active: Vec::new(), retired: Vec::new() }
    }

    /// Pin: register the caller as an active reader at the current epoch and
    /// hand back the guard. Several guards may be pinned at once.
    pub fn pin(&mut self) -> (g: Guard)
        ensures
            g.epoch() == old(self).current_epoch(),
            final(self).current_epoch() == old(self).current_epoch(),
            final(self).active_epochs() == old(self).active_epochs().push(g.epoch()),
            final(self).retired_objects() == old(self).retired_objects(),
            final(self).guard_active(g),
    {
        let e = self.epoch;
        self.active.push(e);
        proof {
            assert(self.active@[self.active@.len() - 1] == e);
        }
        Guard { epoch: e }
    }

    /// Unpin: release one active registration carrying this guard's epoch.
    pub fn unpin(&mut self, g: Guard)
        requires
            old(self).guard_active(g),
        ensures
            final(self).current_epoch() == old(self).current_epoch(),
            final(self).retired_objects() == old(self).retired_objects(),
            exists|i: int|
                0 <= i < old(self).active_epochs().len()
                    && old(self).active_epochs()[i] == g.epoch()
                    && final(self).active_epochs() == old(self).active_epochs().remove(i),
    {
        let mut i: usize = 0;
        loop
            invariant
                *self == *old(self),
                i <= self.active.len(),
                forall|j: int| 0 <= j < i ==> self.active@[j] != g.epoch(),
                exists|j: int| 0 <= j < self.active@.len() && self.active@[j] == g.epoch(),
            decreases self.active.len() - i,
        {
            if self.active[i] == g.epoch {
                let ghost pre = self.active@;
                self.active.remove(i);
                proof {
                    assert(pre == old(self).active_epochs());
                    assert(exists|w: int|
                        0 <= w < old(self).active_epochs().len() && old(self).active_epochs()[w]
                            == g.epoch() && self.active_epochs() == old(
                            self,
                        ).active_epochs().remove(w)) by {
                        assert(0 <= i < pre.len() && pre[i as int] == g.epoch()
                            && self.active@ == pre.remove(i as int));
                    }
                }
                return ;
            }
            i = i + 1;
            proof {
                if i == self.active@.len() {
                    let j = choose|j: int|
                        0 <= j < self.active@.len() && self.active@[j] == g.epoch();
                    assert(false);
                }
            }
        }
    }

    /// Move the global epoch one step forward; it saturates at the largest
    /// representable epoch rather than wrapping back.
    pub fn advance(&mut self)
        ensures
            final(self).active_epochs() == old(self).active_epochs(),
            final(self).retired_objects() == old(self).retired_objects(),
            final(self).current_epoch() == if old(self).current_epoch() < u64::MAX {
                (old(self).current_epoch() + 1) as u64
            } else {
                old(self).current_epoch()
            },
    {
        if self.epoch < u64::MAX {
            self.epoch = self.epoch + 1;
        }
    }

    /// Retire an object: queue it, tagged with the current epoch, and move
    /// the epoch forward. Nothing is reclaimed here.
    pub fn retire(&mut self, obj: u64)
        ensures
            final(self).active_epochs() == old(self).active_epochs(),
            final(self).retired_objects() == old(self).retired_objects().push(
                (obj, old(self).current_epoch()),
            ),
            final(self).current_epoch() == if old(self).current_epoch() < u64::MAX {
                (old(self).current_epoch() + 1) as u64
            } else {
                old(self).current_epoch()
            },
    {
        let e = self.epoch;
        self.retired.push((obj, e));
        self.advance();
    }

    /// Reclaim every retired object whose retirement epoch is strictly older
    /// than the pin epoch of every active guard; exactly the protected ones
    /// stay queued. The returned vector holds the reclaimed objects with
    /// their retirement epochs, in queue order.
    ///
    /// Guard safety: an object retired at or after the pin epoch of a
    /// still-active guard is protected and stays queued.
    pub fn collect(&mut self) -> (freed: Vec<(u64, u64)>)
        ensures
            final(self).current_epoch() == old(self).current_epoch(),
            final(self).active_epochs() == old(self).active_epochs(),
            freed@ == old(self).retired_objects().filter(
                |e: (u64, u64)| !old(self).protected(e.1),
            ),
            final(self).retired_objects() == old(self).retired_objects().filter(
                |e: (u64, u64)| old(self).protected(e.1),
            ),
            forall|j: int|
                0 <= j < freed@.len() ==> old(self).retired_objects().contains(freed@[j])
                    && !old(self).protected(freed@[j].1),
            forall|j: int|
                0 <= j < old(self).retired_objects().len() && old(self).protected(
                    old(self).retired_objects()[j].1,
                ) ==> final(self).retired_objects().contains(old(self).retired_objects()[j]),
            forall|j: int|
                0 <= j < final(self).retired_objects().len() ==> old(
                    self,
                ).retired_objects().contains(final(self).retired_objects()[j]),
    {
        let mut has_min: bool = false;
        let mut min: u64 = 0;
        let mut i: usize = 0;
        while i < self.active.len()
            invariant
                *self == *old(self),
                i <= self.active@.len(),
                has_min <==> i > 0,
                has_min ==> exists|j: int| 0 <= j < i && self.active@[j] == min,
                forall|j: int| 0 <= j < i ==> self.active@[j] >= min,
            decreases self.active@.len() - i,
        {
            let e = self.active[i];
            if !has_min || e < min {
                min = e;
                has_min = true;
            }
            i = i + 1;
        }
        let mut kept: Vec<(u64, u64)> = Vec::new();
        let mut freed: Vec<(u64, u64)> = Vec::new();
        let mut j: usize = 0;
        while j < self.retired.len()
            invariant
                *self == *old(self),
                j <= self.retired@.len(),
                has_min <==> self.active@.len() > 0,
                has_min ==> exists|x: int| 0 <= x < self.active@.len() && self.active@[x] == min,
                forall|x: int| 0 <= x < self.active@.len() ==> self.active@[x] >= min,
                freed@ == self.retired@.take(j as int).filter(
                    |e: (u64, u64)| !old(self).protected(e.1),
                ),
                kept@ == self.retired@.take(j as int).filter(
                    |e: (u64, u64)| old(self).protected(e.1),
                ),
            decreases self.retired@.len() - j,
        {
            let entry = self.retired[j];
            proof {
                reveal(Seq::filter);
                assert(self.retired@.take(j + 1).drop_last() =~= self.retired@.take(j as int));
                assert(self.retired@.take(j + 1).last() == entry);
            }
            if !has_min || entry.1 < min {
                proof {
                    if self.protected(entry.1) {
                        let x = choose|x: int|
                            0 <= x < self.active_epochs().len() && self.active_epochs()[x]
                                <= entry.1;
                        assert(false);
                    }
                }
                freed.push(entry);
            } else {
                proof {
                    let x = choose|x: int|
                        0 <= x < self.active@.len() && self.active@[x] == min;
                    assert(self.active_epochs()[x] <= entry.1);
                }
                kept.push(entry);
            }
            j = j + 1;
        }
        proof {
            assert(self.retired@.take(self.retired@.len() as int) =~= self.retired@);
            lemma_filter_members(
                old(self).retired_objects(),
                |e: (u64, u64)| !old(self).protected(e.1),
            );
            lemma_filter_members(
                old(self).retired_objects(),
                |e: (u64, u64)| old(self).protected(e.1),
            );
            assert forall|j: int| 0 <= j < kept@.len() implies old(
                self,
            ).retired_objects().contains(kept@[j]) by {
                assert(kept@[j] == old(self).retired_objects().filter(
                    |e: (u64, u64)| old(self).protected(e.1),
                )[j]);
            }
            assert forall|j: int| 0 <= j < freed@.len() implies old(
                self,
            ).retired_objects().contains(freed@[j]) && !old(self).protected(freed@[j].1) by {
                assert(freed@[j] == old(self).retired_objects().filter(
                    |e: (u64, u64)| !old(self).protected(e.1),
                )[j]);
            }
            assert forall|j: int|
                0 <= j < old(self).retired_objects().len() && old(self).protected(
                    old(self).retired_objects()[j].1,
                ) implies kept@.contains(old(self).retired_objects()[j]) by {
                assert(old(self).retired_objects().filter(
                    |e: (u64, u64)| old(self).protected(e.1),
                ).contains(old(self).retired_objects()[j]));
            }
        }
        self.retired = kept;
        freed
    }
}

} // verus!
