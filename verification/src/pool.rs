//! Fixed-capacity slot storage: the mask table with its active/free
//! partition, and the payload pool with its name directory.

use vstd::prelude::*;

verus! {

use crate::types::{first_hit, lemma_first_hit_scan, tag_of_str, BitFlags, NameTag};
use crate::ObjectIndex;

/// The entity side of the store: one mask per payload slot, and the
/// partition of all slot indices into the active and the free list.
/// Free-list reuse is LIFO: the most recently freed slot is reused
/// first. The runtime owns this exclusively; user behaviours never see
/// it, so a scan over the active list cannot be invalidated mid-tick.
pub struct Entities {
    /// One membership mask per slot, at the slot's index.
    pub pool: Vec<BitFlags>,
    /// The indices of the live slots, in spawn order.
    pub active: Vec<ObjectIndex>,
    /// The indices available for the next spawns; the last is taken first.
    pub free: Vec<ObjectIndex>,
}

/// The slot the next spawn will claim: the top of the free list.
pub open spec fn claim_target(free: Seq<usize>) -> Option<usize> {
    if free.len() == 0 {
        None
    } else {
        Some(free.last())
    }
}

impl Entities {
    /// The active and free lists partition the slot indices: every entry
    /// names a slot, no entry repeats, the two lists share nothing, and
    /// together they cover every slot exactly once.
    pub open spec fn wf(&self) -> bool {
        &&& forall|i: int|
            0 <= i < self.active@.len() ==> (#[trigger] self.active@[i]) < self.pool@.len()
        &&& forall|i: int| 0 <= i < self.free@.len() ==> (#[trigger] self.free@[i]) < self.pool@.len()
        &&& self.active@.no_duplicates()
        &&& self.free@.no_duplicates()
        &&& forall|i: int|
            0 <= i < self.active@.len() ==> !self.free@.contains(#[trigger] self.active@[i])
        &&& self.active@.len() + self.free@.len() == self.pool@.len()
    }

    /// A store of `size` slots, all masks cleared, every slot free.
    pub(crate) fn new(size: usize) -> (r: Self)
        ensures
            r.wf(),
            r.pool@.len() == size,
            r.active@ == Seq::<usize>::empty(),
            r.free@.len() == size,
            forall|i: int| 0 <= i < size ==> (#[trigger] r.free@[i]) == i,
            forall|i: int| 0 <= i < size ==> (#[trigger] r.pool@[i]).0 == 0,
    {
        let mut pool: Vec<BitFlags> = Vec::new();
        let mut i: usize = 0;
        while i < size
            invariant
                i <= size,
                pool@.len() == i,
                forall|j: int| 0 <= j < i ==> (#[trigger] pool@[j]).0 == 0,
            decreases size - i,
        {
            pool.push(BitFlags(0));
            i += 1;
        }
        let mut free: Vec<usize> = Vec::new();
        let mut k: usize = 0;
        while k < size
            invariant
                k <= size,
                free@.len() == k,
                forall|j: int| 0 <= j < k ==> (#[trigger] free@[j]) == j,
            decreases size - k,
        {
            free.push(k);
            k += 1;
        }
        let r = Entities { pool, active: Vec::new(), free };
        proof {
            assert(r.active@ =~= Seq::<usize>::empty());
            assert forall|i: int, j: int| 0 <= i < j < r.free@.len() implies r.free@[i] != r.free@[j] by {
                assert(r.free@[i] == i && r.free@[j] == j);
            }
        }
        r
    }

    /// Claims a slot from the free list, resetting its mask to empty and
    /// appending it to the active list. Returns nothing when every slot
    /// is taken: capacity exhaustion is a recoverable outcome, not a
    /// fault.
    pub(crate) fn claim(&mut self) -> (r: Option<usize>)
        requires
            old(self).wf(),
        ensures
            final(self).wf(),
            final(self).pool@.len() == old(self).pool@.len(),
            r == claim_target(old(self).free@),
            match r {
                None => {
                    &&& final(self).pool@ == old(self).pool@
                    &&& final(self).active@ == old(self).active@
                    &&& final(self).free@ == old(self).free@
                },
                Some(p) => {
                    &&& p < old(self).pool@.len()
                    &&& final(self).free@ == old(self).free@.drop_last()
                    &&& final(self).active@ == old(self).active@.push(p)
                    &&& final(self).pool@ == old(self).pool@.update(p as int, BitFlags(0))
                },
            },
    {
        match self.free.pop() {
            Some(p) => {
                proof {
                    assert(old(self).free@.last() == p);
                    assert(old(self).free@.contains(p));
                    assert forall|k: int|
                        0 <= k < old(self).active@.len() implies old(self).active@[k] != p by {
                        assert(!old(self).free@.contains(old(self).active@[k]));
                    }
                }
                self.active.push(p);
                self.pool[p] = BitFlags(0);
                proof {
                    let pre = old(self);
                    let fl = pre.free@;
                    assert(self.free@ =~= fl.drop_last());
                    // The shortened free list keeps its elements and so
                    // stays duplicate-free and inside bounds.
                    assert forall|i: int, j: int|
                        0 <= i < j < self.free@.len() implies self.free@[i] != self.free@[j] by {
                        assert(fl[i] == self.free@[i] && fl[j] == self.free@[j]);
                    }
                    // The claimed slot left the free list: it sat only at
                    // the last position.
                    assert forall|k: int| 0 <= k < self.free@.len() implies self.free@[k] != p by {
                        assert(fl[k] == self.free@[k]);
                        assert(fl[fl.len() - 1] == p);
                    }
                    assert forall|i: int|
                        0 <= i < self.active@.len() implies !self.free@.contains(
                        #[trigger] self.active@[i],
                    ) by {
                        if i < pre.active@.len() {
                            assert(!fl.contains(pre.active@[i]));
                            if self.free@.contains(pre.active@[i]) {
                                let w = choose|w: int|
                                    0 <= w < self.free@.len() && self.free@[w] == pre.active@[i];
                                assert(fl[w] == pre.active@[i]);
                            }
                        } else {
                            assert(self.active@[i] == p);
                        }
                    }
                    assert forall|i: int, j: int|
                        0 <= i < j < self.active@.len() implies self.active@[i]
                        != self.active@[j] by {
                        if j < pre.active@.len() {
                        } else {
                            assert(self.active@[j] == p);
                            assert(pre.active@[i] != p);
                        }
                    }
                }
                Some(p)
            },
            None => None,
        }
    }

    /// Removes `target` from the active list by position scan
    /// (shift-remove, preserving active-list order) and returns its slot
    /// index to the free list. Returns the position that was removed so
    /// the caller can drop the matching directory entry, or nothing when
    /// the slot was not active. The payload is not touched: the next
    /// spawn's factory establishes the fresh state.
    pub(crate) fn release(&mut self, target: usize) -> (r: Option<usize>)
        requires
            old(self).wf(),
        ensures
            final(self).wf(),
            final(self).pool@ == old(self).pool@,
            match r {
                Some(pos) => {
                    &&& first_hit(old(self).active@, target) == Some(pos as int)
                    &&& final(self).active@ == old(self).active@.remove(pos as int)
                    &&& final(self).free@ == old(self).free@.push(target)
                },
                None => {
                    &&& first_hit(old(self).active@, target) is None
                    &&& final(self).active@ == old(self).active@
                    &&& final(self).free@ == old(self).free@
                },
            },
    {
        let n = self.active.len();
        let mut i: usize = 0;
        while i < n
            invariant
                old(self).wf(),
                n == self.active@.len(),
                i <= n,
                forall|j: int| 0 <= j < i ==> self.active@[j] != target,
                *self == *old(self),
            decreases n - i,
        {
            if self.active[i] == target {
                proof {
                    lemma_first_hit_scan(self.active@, target, i as int);
                }
                self.active.remove(i);
                self.free.push(target);
                proof {
                    let pre = old(self);
                    let act = pre.active@;
                    let pos = i as int;
                    assert(self.active@ =~= act.remove(pos));
                    // Every remaining active entry comes from the old
                    // list at a position other than `pos`.
                    assert(forall|k: int|
                        0 <= k < self.active@.len() ==> #[trigger] self.active@[k] == (if k < pos {
                            act[k]
                        } else {
                            act[k + 1]
                        }));
                    assert forall|a: int, b: int|
                        0 <= a < b < self.active@.len() implies self.active@[a]
                        != self.active@[b] by {
                        let oa = if a < pos {
                            a
                        } else {
                            a + 1
                        };
                        let ob = if b < pos {
                            b
                        } else {
                            b + 1
                        };
                        assert(self.active@[a] == act[oa]);
                        assert(self.active@[b] == act[ob]);
                    }
                    // `target` sat in the active list, so it was not free;
                    // pushing it keeps the free list duplicate-free.
                    assert(!pre.free@.contains(target)) by {
                        assert(pre.active@[pos] == target);
                        assert(!pre.free@.contains(pre.active@[pos]));
                    }
                    assert forall|a: int, b: int|
                        0 <= a < b < self.free@.len() implies self.free@[a] != self.free@[b] by {
                        if b == self.free@.len() - 1 {
                            assert(self.free@[a] == pre.free@[a]);
                            if pre.free@[a] == target {
                                assert(pre.free@.contains(target));
                            }
                        }
                    }
                    // The remaining active entries stay clear of the
                    // grown free list: they differ from `target` because
                    // the active list had no duplicates.
                    assert forall|k: int|
                        0 <= k < self.active@.len() implies !self.free@.contains(
                        #[trigger] self.active@[k],
                    ) by {
                        let orig = if k < pos {
                            k
                        } else {
                            k + 1
                        };
                        assert(self.active@[k] == act[orig]);
                        assert(!pre.free@.contains(act[orig]));
                        assert(act[orig] != act[pos]);
                        if self.free@.contains(act[orig]) {
                            let w = choose|w: int|
                                0 <= w < self.free@.len() && self.free@[w] == act[orig];
                            assert(w < pre.free@.len());
                            assert(pre.free@[w] == act[orig]);
                        }
                    }
                }
                return Some(i);
            }
            i += 1;
        }
        proof {
            lemma_first_hit_scan(self.active@, target, n as int);
        }
        None
    }
}

/// CAPACITY LAW: in a well-formed store a spawn finds a slot exactly
/// while fewer slots are active than exist. Starting from the freshly
/// built store, each successful claim grows the active list by one, so
/// `capacity` consecutive spawns succeed and the next returns nothing.
pub proof fn lemma_spawn_exhaustion(e: Entities)
    requires
        e.wf(),
    ensures
        claim_target(e.free@) is Some <==> e.active@.len() < e.pool@.len(),
{
}

/// LIFO REUSE LAW: a `release` pushes the freed slot on the free list,
/// and the next `claim` takes the top of that list, so a spawn right
/// after a destroy hands back the just-freed slot. The claim also
/// clears the slot's mask before any factory runs.
pub proof fn lemma_lifo_reuse(free: Seq<usize>, target: usize)
    ensures
        claim_target(free.push(target)) == Some(target),
{
}

/// The payload side of the store: one user value per slot, and the
/// directory of live slots' names used by `find`. Behaviours receive
/// this mutably during a scan, but its public face only reads or writes
/// payload values: the pool's length and the directory cannot change
/// from outside the crate.
pub struct Objects<T> {
    pub(crate) pool: Vec<T>,
    pub(crate) active: Vec<(ObjectIndex, NameTag)>,
}

impl<T> Objects<T> {
    /// The payload values, at their slot indices.
    pub closed spec fn payloads(&self) -> Seq<T> {
        self.pool@
    }

    /// The live slots' `(index, name)` entries, parallel to the active
    /// list.
    pub closed spec fn directory(&self) -> Seq<(usize, NameTag)> {
        self.active@
    }

    /// The stored name bytes of the live slots, in active-list order.
    pub open spec fn dir_names(&self) -> Seq<Seq<u8>> {
        self.directory().map_values(|e: (usize, NameTag)| e.1@)
    }

    /// Direct indexed access for writing. The caller must know the index
    /// names a slot; no liveness check is made, so an index freed and
    /// not yet respawned reaches stale data rather than failing.
    pub fn get_mut(&mut self, target: &ObjectIndex) -> (r: &mut T)
        requires
            *target < old(self).payloads().len(),
        ensures
            *r == old(self).payloads()[*target as int],
            final(self).payloads() == old(self).payloads().update(*target as int, *final(r)),
            final(self).directory() == old(self).directory(),
    {
        &mut self.pool[*target]
    }

    /// Direct indexed access for reading; no liveness check, as for
    /// `get_mut`.
    pub fn get_ref(&self, target: &ObjectIndex) -> (r: &T)
        requires
            *target < self.payloads().len(),
        ensures
            *r == self.payloads()[*target as int],
    {
        &self.pool[*target]
    }

    /// The first active slot registered under `name`, scanning
    /// active-list order.
    pub fn find(&self, name: &str) -> (r: Option<ObjectIndex>)
        ensures
            match r {
                Some(idx) => {
                    &&& first_hit(self.dir_names(), tag_of_str(name@)) matches Some(i)
                    &&& idx == self.directory()[first_hit(
                        self.dir_names(),
                        tag_of_str(name@),
                    ).unwrap()].0
                },
                None => first_hit(self.dir_names(), tag_of_str(name@)) is None,
            },
    {
        let tag = NameTag::from_str(name);
        let n = self.active.len();
        let mut i: usize = 0;
        while i < n
            invariant
                n == self.directory().len(),
                tag@ == tag_of_str(name@),
                i <= n,
                forall|j: int| 0 <= j < i ==> self.dir_names()[j] != tag@,
            decreases n - i,
        {
            if self.active[i].1 == tag {
                assert(self.dir_names()[i as int] == tag@);
                proof {
                    lemma_first_hit_scan(self.dir_names(), tag@, i as int);
                }
                return Some(self.active[i].0);
            }
            assert(self.dir_names()[i as int] != tag@);
            i += 1;
        }
        proof {
            lemma_first_hit_scan(self.dir_names(), tag@, n as int);
        }
        None
    }
}

impl<T: Default> Objects<T> {
    /// A pool of `size` slots, each holding a default payload, with an
    /// empty directory.
    pub(crate) fn new(size: usize) -> (r: Self)
        ensures
            r.payloads().len() == size,
            forall|i: int|
                0 <= i < size ==> call_ensures(T::default, (), #[trigger] r.payloads()[i]),
            r.directory() == Seq::<(usize, NameTag)>::empty(),
    {
        let mut pool: Vec<T> = Vec::new();
        let mut i: usize = 0;
        while i < size
            invariant
                i <= size,
                pool@.len() == i,
                forall|j: int| 0 <= j < i ==> call_ensures(T::default, (), #[trigger] pool@[j]),
            decreases size - i,
        {
            pool.push(T::default());
            i += 1;
        }
        let r = Objects { pool, active: Vec::new() };
        proof {
            assert(r.directory() =~= Seq::<(usize, NameTag)>::empty());
        }
        r
    }

    /// Overwrites a slot with a fresh default payload.
    pub(crate) fn reset_slot(&mut self, target: usize)
        requires
            target < old(self).payloads().len(),
        ensures
            final(self).payloads().len() == old(self).payloads().len(),
            forall|j: int|
                0 <= j < old(self).payloads().len() && j != target ==> final(self).payloads()[j]
                    == old(self).payloads()[j],
            call_ensures(T::default, (), final(self).payloads()[target as int]),
            final(self).directory() == old(self).directory(),
    {
        let v = T::default();
        self.pool[target] = v;
    }

    /// Takes a slot's payload out, leaving a default value behind.
    pub(crate) fn take_slot(&mut self, target: usize) -> (r: T)
        requires
            target < old(self).payloads().len(),
        ensures
            r == old(self).payloads()[target as int],
            final(self).payloads().len() == old(self).payloads().len(),
            forall|j: int|
                0 <= j < old(self).payloads().len() && j != target ==> final(self).payloads()[j]
                    == old(self).payloads()[j],
            final(self).directory() == old(self).directory(),
    {
        let mut v = T::default();
        let slot = self.get_mut(&target);
        core::mem::swap(slot, &mut v);
        v
    }
}

impl<T> Objects<T> {
    /// Writes a payload into a slot.
    pub(crate) fn put_slot(&mut self, target: usize, value: T)
        requires
            target < old(self).payloads().len(),
        ensures
            final(self).payloads() == old(self).payloads().update(target as int, value),
            final(self).directory() == old(self).directory(),
    {
        let slot = self.get_mut(&target);
        *slot = value;
    }

    /// Appends a live slot's entry to the directory.
    pub(crate) fn register(&mut self, target: usize, name: NameTag)
        ensures
            final(self).payloads() == old(self).payloads(),
            final(self).directory() == old(self).directory().push((target, name)),
    {
        self.active.push((target, name));
    }

    /// Drops the directory entry at a position, shifting the rest.
    pub(crate) fn unregister(&mut self, pos: usize)
        requires
            pos < old(self).directory().len(),
        ensures
            final(self).payloads() == old(self).payloads(),
            final(self).directory() == old(self).directory().remove(pos as int),
    {
        self.active.remove(pos);
    }
}

/// What any well-typed user behaviour can do to the payload pool it is
/// handed: read and write payload values, and nothing else. The pool's
/// length and the directory are out of its reach, because `Objects`
/// exposes no public way to change them.
pub open spec fn objects_frame<T>(pre: Objects<T>, post: Objects<T>) -> bool {
    &&& post.payloads().len() == pre.payloads().len()
    &&& post.directory() == pre.directory()
}

/// The payload pool and the mask table describe the same slots: equal
/// lengths, and the directory names the active slots in order.
pub open spec fn pools_wf<T>(e: Entities, o: Objects<T>) -> bool {
    &&& o.payloads().len() == e.pool@.len()
    &&& o.directory().len() == e.active@.len()
    &&& forall|i: int|
        0 <= i < e.active@.len() ==> (#[trigger] o.directory()[i]).0 == e.active@[i]
}

} // verus!
