//! Handle-based object pools.
//!
//! A `Pool` hands out opaque integer handles for long-lived values (network
//! clients); a `GarbageCollectedPool` adds a per-entry retention flag and
//! consume-on-read semantics, and is used for JSON values and header sets.
//! Handles are assigned by a strictly increasing counter starting at 1, so the
//! sentinel values 0 and -1 are never valid handles.

use std::collections::HashMap;
use vstd::prelude::*;

verus! {

broadcast use vstd::std_specs::hash::group_hash_axioms;

/// A value that can be duplicated into an independently owned value with the
/// same abstract content. `GarbageCollectedPool::take` relies on this to hand
/// out a copy while the entry stays in the table.
pub trait PoolValue: View + Sized {
    fn duplicate(&self) -> (r: Self)
        ensures
            r@ == self@,
    ;
}

/// Monotonic-id table mapping an opaque integer handle to an owned value.
/// Entries are never implicitly destroyed.
pub struct Pool<T> {
    pub active: HashMap<i32, T>,
    pub current: i32,
}

impl<T> Pool<T> {
    /// Handles are positive, bounded by the counter, and the counter never
    /// runs backwards.
    pub open spec fn wf(self) -> bool {
        &&& 0 <= self.current
        &&& forall|id: i32| self.active@.contains_key(id) ==> 0 < id <= self.current
    }

    /// Inserts `t` under a fresh handle, strictly greater than every handle
    /// this pool has ever returned.
    pub fn allocate(&mut self, t: T) -> (id: i32)
        requires
            old(self).wf(),
            old(self).current < i32::MAX,
        ensures
            final(self).wf(),
            id == old(self).current + 1,
            final(self).current == id,
            final(self).active@ == old(self).active@.insert(id, t),
            !old(self).active@.contains_key(id),
            forall|k: i32| old(self).active@.contains_key(k) ==> k < id,
    {
        self.current = self.current + 1;
        self.active.insert(self.current, t);
        self.current
    }

    /// Looks a handle up; `None` when it was never allocated or has been
    /// removed.
    pub fn get(&self, id: i32) -> (r: Option<&T>)
        ensures
            match r {
                Some(t) => self.active@.contains_key(id) && *t == self.active@[id],
                None => !self.active@.contains_key(id),
            },
    {
        self.active.get(&id)
    }
}

impl<T> Default for Pool<T> {
    fn default() -> (r: Self)
        ensures
            r.wf(),
            r.active@ == Map::<i32, T>::empty(),
            r.current == 0,
    {
        Pool { active: HashMap::new(), current: 0 }
    }
}

/// One entry of a `GarbageCollectedPool`: the stored value and its retention
/// flag. While `gc` is true (the default), the first consuming read removes
/// the entry.
pub struct Item<T> {
    pub value: T,
    pub gc: bool,
}

/// Handle table with consume-on-read semantics, used to pass JSON values and
/// header sets to and from the host by opaque integer handle.
pub struct GarbageCollectedPool<T: PoolValue> {
    pub active: HashMap<i32, Item<T>>,
    pub current: i32,
}

impl<T: PoolValue> GarbageCollectedPool<T> {
    pub open spec fn wf(self) -> bool {
        &&& 0 <= self.current
        &&& forall|id: i32| self.active@.contains_key(id) ==> 0 < id <= self.current
    }

    /// Inserts `t` under a fresh handle with the retention flag set.
    pub fn allocate(&mut self, t: T) -> (id: i32)
        requires
            old(self).wf(),
            old(self).current < i32::MAX,
        ensures
            final(self).wf(),
            id == old(self).current + 1,
            final(self).current == id,
            final(self).active@ == old(self).active@.insert(id, Item { value: t, gc: true }),
            !old(self).active@.contains_key(id),
            forall|k: i32| old(self).active@.contains_key(k) ==> k < id,
    {
        self.current = self.current + 1;
        self.active.insert(self.current, Item { value: t, gc: true });
        self.current
    }

    /// Looks a handle up without consuming it; `None` when it is unknown.
    pub fn get(&self, id: i32) -> (r: Option<&T>)
        ensures
            match r {
                Some(t) => self.active@.contains_key(id) && *t == self.active@[id].value,
                None => !self.active@.contains_key(id),
            },
    {
        match self.active.get(&id) {
            Some(item) => Some(&item.value),
            None => None,
        }
    }

    /// Consuming read: returns the stored value if the handle is known, and
    /// removes the entry when its retention flag is set. With the flag
    /// cleared the entry survives arbitrarily many `take` calls.
    pub fn take(&mut self, id: i32) -> (r: Option<T>)
        ensures
            final(self).current == old(self).current,
            match r {
                Some(v) => {
                    &&& old(self).active@.contains_key(id)
                    &&& v@ == old(self).active@[id].value@
                    &&& old(self).active@[id].gc ==> v == old(self).active@[id].value
                    &&& final(self).active@ == if old(self).active@[id].gc {
                        old(self).active@.remove(id)
                    } else {
                        old(self).active@
                    }
                },
                None => !old(self).active@.contains_key(id) && final(self).active@ == old(self).active@,
            },
    {
        let gc = match self.active.get(&id) {
            None => {
                return None;
            },
            Some(item) => item.gc,
        };
        if gc {
            match self.active.remove(&id) {
                Some(item) => Some(item.value),
                None => None,
            }
        } else {
            match self.active.get(&id) {
                Some(item) => Some(item.value.duplicate()),
                None => None,
            }
        }
    }

    /// Sets the retention flag of a known handle; fails (returns `None`) when
    /// the handle is unknown and leaves every entry as it was.
    pub fn set_gc(&mut self, id: i32, set: bool) -> (r: Option<()>)
        ensures
            final(self).current == old(self).current,
            match r {
                Some(_) => {
                    &&& old(self).active@.contains_key(id)
                    &&& final(self).active@ == old(self).active@.insert(
                        id,
                        Item { value: old(self).active@[id].value, gc: set },
                    )
                },
                None => !old(self).active@.contains_key(id) && final(self).active@ == old(self).active@,
            },
    {
        match self.active.remove(&id) {
            None => None,
            Some(item) => {
                self.active.insert(id, Item { value: item.value, gc: set });
                proof {
                    assert(self.active@ =~= old(self).active@.insert(
                        id,
                        Item { value: old(self).active@[id].value, gc: set },
                    ));
                }
                Some(())
            },
        }
    }

    /// Removes the entry only when its retention flag is set; returns `None`
    /// (and changes nothing) otherwise.
    pub fn collect(&mut self, id: i32) -> (r: Option<Item<T>>)
        ensures
            final(self).current == old(self).current,
            match r {
                Some(item) => {
                    &&& old(self).active@.contains_key(id)
                    &&& item == old(self).active@[id]
                    &&& item.gc
                    &&& final(self).active@ == old(self).active@.remove(id)
                },
                None => {
                    &&& final(self).active@ == old(self).active@
                    &&& old(self).active@.contains_key(id) ==> !old(self).active@[id].gc
                },
            },
    {
        let gc = match self.active.get(&id) {
            None => {
                return None;
            },
            Some(item) => item.gc,
        };
        if !gc {
            return None;
        }
        self.active.remove(&id)
    }

    /// Removes the entry unconditionally; `None` when the handle is unknown.
    pub fn collect_force(&mut self, id: i32) -> (r: Option<Item<T>>)
        ensures
            final(self).current == old(self).current,
            match r {
                Some(item) => {
                    &&& old(self).active@.contains_key(id)
                    &&& item == old(self).active@[id]
                    &&& final(self).active@ == old(self).active@.remove(id)
                },
                None => !old(self).active@.contains_key(id) && final(self).active@ == old(self).active@,
            },
    {
        self.active.remove(&id)
    }
}

impl<T: PoolValue> Default for GarbageCollectedPool<T> {
    fn default() -> (r: Self)
        ensures
            r.wf(),
            r.active@ == Map::<i32, Item<T>>::empty(),
            r.current == 0,
    {
        GarbageCollectedPool { active: HashMap::new(), current: 0 }
    }
}

/// Handles a plain pool returns for consecutive allocations are distinct
/// and strictly increasing, and never collide with a live handle.
pub proof fn lemma_pool_handles_strictly_increase<T>(
    p0: Pool<T>,
    p1: Pool<T>,
    id1: i32,
    p2: Pool<T>,
    id2: i32,
    v1: T,
    v2: T,
)
    requires
        p0.wf(),
        p0.current < i32::MAX - 1,
        // first allocation: p0 -> p1 returning id1
        id1 == p0.current + 1,
        p1.current == id1,
        p1.active@ == p0.active@.insert(id1, v1),
        // second allocation: p1 -> p2 returning id2
        id2 == p1.current + 1,
        p2.current == id2,
        p2.active@ == p1.active@.insert(id2, v2),
    ensures
        id1 < id2,
        !p0.active@.contains_key(id1),
        !p1.active@.contains_key(id2),
        forall|k: i32| p0.active@.contains_key(k) ==> k < id1 < id2,
{
}

/// Handles returned by consecutive allocations are distinct and strictly
/// increasing, and a freshly returned handle never collides with any handle
/// already in the table.
pub proof fn lemma_alloc_handles_strictly_increase<T: PoolValue>(
    p0: GarbageCollectedPool<T>,
    p1: GarbageCollectedPool<T>,
    id1: i32,
    p2: GarbageCollectedPool<T>,
    id2: i32,
    v1: T,
    v2: T,
)
    requires
        p0.wf(),
        p0.current < i32::MAX - 1,
        // first allocation: p0 -> p1 returning id1
        id1 == p0.current + 1,
        p1.current == id1,
        p1.active@ == p0.active@.insert(id1, Item { value: v1, gc: true }),
        // second allocation: p1 -> p2 returning id2
        id2 == p1.current + 1,
        p2.current == id2,
        p2.active@ == p1.active@.insert(id2, Item { value: v2, gc: true }),
    ensures
        id1 < id2,
        !p0.active@.contains_key(id1),
        !p1.active@.contains_key(id2),
        forall|k: i32| p0.active@.contains_key(k) ==> k < id1 < id2,
{
}

/// First `take` on a retained entry removes it, so a second `take` of the
/// same handle finds nothing: by `take`'s contract the first call returns
/// the value and leaves the map without the key, and the second call then
/// returns `None`.
pub proof fn lemma_take_retained_once<T: PoolValue>(m: Map<i32, Item<T>>, id: i32)
    requires
        m.contains_key(id),
        m[id].gc,
    ensures
        !m.remove(id).contains_key(id),
        forall|k: i32| k != id ==> m.remove(id).contains_key(k) == m.contains_key(k),
{
}

/// With the retention flag cleared, `take` leaves the map untouched, so any
/// number of repeated `take` calls return the same value — until
/// `collect_force` removes the entry and further `take` calls return `None`.
pub proof fn lemma_take_unretained_stable<T: PoolValue>(m: Map<i32, Item<T>>, id: i32)
    requires
        m.contains_key(id),
        !m[id].gc,
    ensures
        // the map `take`'s contract leaves behind is the map it started from,
        // so every later `take` reads the same entry
        (if m[id].gc {
            m.remove(id)
        } else {
            m
        }) == m,
        // after `collect_force`, nothing is left to take
        !m.remove(id).contains_key(id),
{
}

/// Setting the retention flag twice to the same value equals setting it
/// once, and no other entry moves: `set_gc`'s contract writes the same
/// entry both times.
pub proof fn lemma_set_gc_idempotent<T: PoolValue>(m: Map<i32, Item<T>>, id: i32, set: bool)
    requires
        m.contains_key(id),
    ensures
        ({
            let once = m.insert(id, Item { value: m[id].value, gc: set });
            let twice = once.insert(id, Item { value: once[id].value, gc: set });
            &&& twice == once
            &&& forall|k: i32| k != id ==> once.contains_key(k) == m.contains_key(k) && (
                m.contains_key(k) ==> once[k] == m[k])
        }),
{
    let once = m.insert(id, Item { value: m[id].value, gc: set });
    let twice = once.insert(id, Item { value: once[id].value, gc: set });
    assert(twice =~= once);
}

/// Collecting an already collected handle fails without touching any other
/// entry: with the key gone, `collect`'s contract returns `None` and leaves
/// the map exactly as it was.
pub proof fn lemma_collect_collected<T: PoolValue>(m: Map<i32, Item<T>>, id: i32)
    requires
        m.contains_key(id),
    ensures
        !m.remove(id).contains_key(id),
        forall|k: i32| k != id ==> m.remove(id).contains_key(k) == m.contains_key(k) && (
            m.contains_key(k) ==> m.remove(id)[k] == m[k]),
{
}

} // verus!
