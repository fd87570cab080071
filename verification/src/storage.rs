use vstd::prelude::*;
use std::collections::BTreeMap;
use std::collections::HashMap;
use crate::entity::{Entity, Index};
use crate::entities::{listed_before, Entities};
use crate::error::Error;
use crate::mask::Mask;

verus! {

broadcast use vstd::std_specs::hash::group_hash_axioms;

/// A backing store holding up to one component per entity index. The
/// operations carry the access contract as preconditions: reading or
/// removing an index demands that it was inserted and not yet removed,
/// and inserting demands a vacant index. The owning masked storage is
/// the sole enforcer of that contract through its bitset mask; the
/// backing store itself performs no existence checks.
pub trait Storage<T>: Sized {
    /// The stored components, by entity index.
    spec fn view(&self) -> Map<Index, T>;

    /// The store's internal consistency invariant.
    spec fn wf(&self) -> bool;

    /// Create an empty store.
    fn empty() -> (s: Self)
        ensures
            s.wf(),
            s.view() == Map::<Index, T>::empty(),
    ;

    /// Read the component at an occupied index.
    fn get(&self, index: Index) -> (r: &T)
        requires
            self.wf(),
            self.view().contains_key(index),
        ensures
            *r == self.view()[index],
    ;

    /// Insert a component at a vacant index.
    fn insert(&mut self, index: Index, value: T)
        requires
            old(self).wf(),
            !old(self).view().contains_key(index),
        ensures
            final(self).wf(),
            final(self).view() == old(self).view().insert(index, value),
    ;

    /// Take the component out of an occupied index.
    fn remove(&mut self, index: Index) -> (r: T)
        requires
            old(self).wf(),
            old(self).view().contains_key(index),
        ensures
            final(self).wf(),
            r == old(self).view()[index],
            final(self).view() == old(self).view().remove(index),
    ;

    /// Bulk-drop every component; `has` is the mask of occupied indices.
    fn clean(&mut self, has: &Mask)
        requires
            old(self).wf(),
        ensures
            final(self).wf(),
            final(self).view() == Map::<Index, T>::empty(),
    ;
}

/// A marker for stores whose layout guarantees that mutating index `i`
/// never touches memory backing index `j != i`, making them safe for
/// disjoint-index concurrent mutation.
pub trait DistinctStorage {
}

/// A value with a fallible default, used when a component storage has to
/// be conjured during registration. None of the stores here can fail to
/// conjure one, so the error side is owed never to occur.
pub trait TryDefault: Sized {
    /// What counts as the default for this type.
    spec fn is_default(&self) -> bool;

    fn try_default() -> (r: Result<Self, String>)
        ensures
            match r {
                Ok(v) => v.is_default(),
                Err(_) => false,
            },
    ;
}

/// A component: per-entity data with a declared backing storage
/// strategy.
pub trait Component: Sized {
    type Storage: Storage<Self>;
}

/// Plain fixed-slot vector storage: one slot per entity index. Best for
/// components present on most entities.
pub struct VecStorage<T> {
    data: Vec<Option<T>>,
}

impl<T> Storage<T> for VecStorage<T> {
    closed spec fn wf(&self) -> bool {
        true
    }

    closed spec fn view(&self) -> Map<Index, T> {
        Map::new(
            |i: Index| (i as int) < self.data@.len() && self.data@[i as int] is Some,
            |i: Index| self.data@[i as int]->0,
        )
    }

    fn empty() -> (s: Self)
        ensures
            s.wf(),
            s.view() == Map::<Index, T>::empty(),
    {
        let s = VecStorage { data: Vec::new() };
        proof {
            assert(s.view() =~= Map::<Index, T>::empty());
        }
        s
    }

    fn get(&self, index: Index) -> (r: &T) {
        match &self.data[index as usize] {
            Some(v) => v,
            None => {
                proof {
                    assert(false);
                }
                unreached()
            },
        }
    }

    fn insert(&mut self, index: Index, value: T) {
        while self.data.len() <= index as usize
            invariant
                forall|k: int|
                    0 <= k < old(self).data@.len() ==> self.data@[k] == old(self).data@[k],
                self.data@.len() >= old(self).data@.len(),
                forall|k: int|
                    old(self).data@.len() <= k < self.data@.len() ==> self.data@[k] is None,
                self.data@.len() <= old(self).data@.len() || self.data@.len() <= index as int
                    + 1,
            decreases index as int + 1 - self.data.len(),
        {
            self.data.push(None);
        }
        self.data.set(index as usize, Some(value));
        proof {
            assert(self.view() =~= old(self).view().insert(index, value));
        }
    }

    fn remove(&mut self, index: Index) -> (r: T) {
        let slot = &mut self.data[index as usize];
        let r = slot.take();
        match r {
            Some(v) => {
                proof {
                    assert(self.view() =~= old(self).view().remove(index));
                }
                v
            },
            None => {
                proof {
                    assert(false);
                }
                unreached()
            },
        }
    }

    fn clean(&mut self, has: &Mask) {
        self.data.clear();
        proof {
            assert(self.view() =~= Map::<Index, T>::empty());
        }
    }
}

impl<T> DistinctStorage for VecStorage<T> {
}

impl<T> TryDefault for VecStorage<T> {
    open spec fn is_default(&self) -> bool {
        self.wf() && self.view() == Map::<Index, T>::empty()
    }

    fn try_default() -> (r: Result<Self, String>) {
        Ok(<VecStorage<T> as Storage<T>>::empty())
    }
}

/// Dense vector storage: a two-way redirection table between entity
/// indices and a gap-free component vector.
pub struct DenseVecStorage<T> {
    data: Vec<T>,
    entity_id: Vec<Index>,
    data_id: Vec<Option<usize>>,
}

impl<T> Storage<T> for DenseVecStorage<T> {
    closed spec fn wf(&self) -> bool {
        &&& self.data@.len() == self.entity_id@.len()
        &&& self.data_id@.len() <= u32::MAX + 1
        &&& forall|p: int|
            0 <= p < self.entity_id@.len() ==> {
                let e = (#[trigger] self.entity_id@[p]) as int;
                e < self.data_id@.len() && self.data_id@[e] == Some(p as usize)
            }
        &&& forall|i: int|
            0 <= i < self.data_id@.len() && (#[trigger] self.data_id@[i]) is Some ==> {
                let p = self.data_id@[i]->0 as int;
                p < self.data@.len() && self.entity_id@[p] == i as Index
            }
    }

    closed spec fn view(&self) -> Map<Index, T> {
        Map::new(
            |i: Index| (i as int) < self.data_id@.len() && self.data_id@[i as int] is Some,
            |i: Index| self.data@[self.data_id@[i as int]->0 as int],
        )
    }

    fn empty() -> (s: Self)
        ensures
            s.wf(),
            s.view() == Map::<Index, T>::empty(),
    {
        let s = DenseVecStorage { data: Vec::new(), entity_id: Vec::new(), data_id: Vec::new() };
        proof {
            assert(s.view() =~= Map::<Index, T>::empty());
        }
        s
    }

    fn get(&self, index: Index) -> (r: &T) {
        match self.data_id[index as usize] {
            Some(p) => &self.data[p],
            None => {
                proof {
                    assert(false);
                }
                unreached()
            },
        }
    }

    fn insert(&mut self, index: Index, value: T) {
        while self.data_id.len() <= index as usize
            invariant
                self.data == old(self).data,
                self.entity_id == old(self).entity_id,
                forall|k: int|
                    0 <= k < old(self).data_id@.len() ==> self.data_id@[k] == old(
                        self,
                    ).data_id@[k],
                self.data_id@.len() >= old(self).data_id@.len(),
                forall|k: int|
                    old(self).data_id@.len() <= k < self.data_id@.len() ==> self.data_id@[k]
                        is None,
                self.data_id@.len() <= old(self).data_id@.len() || self.data_id@.len()
                    <= index as int + 1,
            decreases index as int + 1 - self.data_id.len(),
        {
            self.data_id.push(None);
        }
        let slot = self.data.len();
        self.data_id.set(index as usize, Some(slot));
        self.entity_id.push(index);
        self.data.push(value);
        proof {
            assert forall|i: int|
                0 <= i < self.data_id@.len() && (#[trigger] self.data_id@[i]) is Some implies {
                let p = self.data_id@[i]->0 as int;
                p < self.data@.len() && self.entity_id@[p] == i as Index
            } by {
                if i != index as int {
                    assert(self.data_id@[i] == old(self).data_id@[i] || old(
                        self,
                    ).data_id@.len() <= i);
                    if old(self).data_id@.len() > i {
                        let p = self.data_id@[i]->0 as int;
                        assert(old(self).entity_id@[p] == i as Index);
                        assert(self.entity_id@[p] == i as Index);
                    }
                }
            }
            assert forall|p: int|
                0 <= p < self.entity_id@.len() implies {
                let e = (#[trigger] self.entity_id@[p]) as int;
                e < self.data_id@.len() && self.data_id@[e] == Some(p as usize)
            } by {
                if p < old(self).entity_id@.len() {
                    let e = old(self).entity_id@[p] as int;
                    assert(old(self).data_id@[e] == Some(p as usize));
                    assert(e != index as int);
                    assert(self.data_id@[e] == old(self).data_id@[e]);
                } else {
                    assert(self.entity_id@[p] == index);
                }
            }
            assert(self.view() =~= old(self).view().insert(index, value));
        }
    }

    fn remove(&mut self, index: Index) -> (r: T) {
        let ghost s0 = *self;
        let slot: usize = match self.data_id[index as usize] {
            Some(p) => p,
            None => {
                proof {
                    assert(false);
                }
                unreached()
            },
        };
        let last_entity = self.entity_id[self.entity_id.len() - 1];
        self.data_id.set(last_entity as usize, Some(slot));
        self.entity_id.swap_remove(slot);
        let value = self.data.swap_remove(slot);
        self.data_id.set(index as usize, None);
        proof {
            let n = s0.entity_id@.len() as int;
            assert(s0.data_id@[index as int] == Some(slot));
            assert(s0.entity_id@[slot as int] == index);
            assert(s0.entity_id@[n - 1] == last_entity);
            assert(s0.data_id@[last_entity as int] == Some((n - 1) as usize));
            if last_entity == index {
                assert(slot as int == n - 1);
            }
            assert(value == s0.view()[index]);
            assert forall|p: int|
                0 <= p < self.entity_id@.len() implies {
                let e = (#[trigger] self.entity_id@[p]) as int;
                e < self.data_id@.len() && self.data_id@[e] == Some(p as usize)
            } by {
                if p == slot as int {
                    assert(self.entity_id@[p] == last_entity);
                    assert(last_entity != index);
                    assert(self.data_id@[last_entity as int] == Some(slot));
                } else {
                    assert(self.entity_id@[p] == s0.entity_id@[p]);
                    let e = s0.entity_id@[p] as int;
                    assert(s0.data_id@[e] == Some(p as usize));
                    assert(e != index as int);
                    assert(e != last_entity as int) by {
                        if e == last_entity as int {
                            assert(s0.data_id@[e] == Some((n - 1) as usize));
                            assert(p == n - 1);
                        }
                    }
                    assert(self.data_id@[e] == s0.data_id@[e]);
                }
            }
            assert forall|i: int|
                0 <= i < self.data_id@.len() && (#[trigger] self.data_id@[i]) is Some implies {
                let p = self.data_id@[i]->0 as int;
                p < self.data@.len() && self.entity_id@[p] == i as Index
            } by {
                if i == last_entity as int && last_entity != index {
                    assert(self.data_id@[i] == Some(slot));
                    assert(slot as int != n - 1) by {
                        if slot as int == n - 1 {
                            assert(s0.entity_id@[n - 1] == index);
                        }
                    }
                    assert(self.entity_id@[slot as int] == last_entity);
                } else if i != index as int {
                    assert(self.data_id@[i] == s0.data_id@[i]);
                    let p = self.data_id@[i]->0 as int;
                    assert(s0.entity_id@[p] == i as Index);
                    assert(p != slot as int) by {
                        if p == slot as int {
                            assert(i as Index == index);
                        }
                    }
                    assert(i != last_entity as int);
                    assert(p != n - 1) by {
                        if p == n - 1 {
                            assert(i as Index == last_entity);
                        }
                    }
                    assert(self.entity_id@[p] == s0.entity_id@[p]);
                }
            }
            assert forall|i: Index|
                self.view().contains_key(i) == s0.view().remove(index).contains_key(i) by {
                if i != index {
                    if (i as int) < self.data_id@.len() {
                        assert(self.data_id@[i as int] == s0.data_id@[i as int] || (i
                            == last_entity && self.data_id@[i as int] == Some(slot)));
                    }
                }
            }
            assert forall|i: Index|
                self.view().contains_key(i) implies self.view()[i] == s0.view().remove(
                index,
            )[i] by {
                let p = self.data_id@[i as int]->0 as int;
                assert(self.entity_id@[p] == i);
                if i == last_entity && last_entity != index {
                    assert(self.data_id@[i as int] == Some(slot));
                    assert(self.data@[slot as int] == s0.data@[n - 1]);
                    assert(s0.data_id@[i as int] == Some((n - 1) as usize));
                } else {
                    assert(self.data_id@[i as int] == s0.data_id@[i as int]);
                    assert(s0.entity_id@[p] == i);
                    assert(p != n - 1) by {
                        if p == n - 1 {
                            assert(i == last_entity);
                        }
                    }
                    assert(p != slot as int) by {
                        if p == slot as int {
                            assert(i == index);
                        }
                    }
                    assert(self.data@[p] == s0.data@[p]);
                }
            }
            assert(self.view() =~= s0.view().remove(index));
        }
        value
    }

    fn clean(&mut self, has: &Mask) {
        self.data.clear();
        self.entity_id.clear();
        self.data_id.clear();
        proof {
            assert(self.view() =~= Map::<Index, T>::empty());
        }
    }
}

impl<T> TryDefault for DenseVecStorage<T> {
    open spec fn is_default(&self) -> bool {
        self.wf() && self.view() == Map::<Index, T>::empty()
    }

    fn try_default() -> (r: Result<Self, String>) {
        Ok(<DenseVecStorage<T> as Storage<T>>::empty())
    }
}

/// `HashMap`-based storage. Best suited for rare components.
pub struct HashMapStorage<T> {
    data: HashMap<Index, T>,
}

impl<T> Storage<T> for HashMapStorage<T> {
    closed spec fn wf(&self) -> bool {
        true
    }

    closed spec fn view(&self) -> Map<Index, T> {
        self.data@
    }

    fn empty() -> (s: Self)
        ensures
            s.wf(),
            s.view() == Map::<Index, T>::empty(),
    {
        let s = HashMapStorage { data: HashMap::new() };
        proof {
            assert(s.view() =~= Map::<Index, T>::empty());
        }
        s
    }

    fn get(&self, index: Index) -> (r: &T) {
        match self.data.get(&index) {
            Some(v) => v,
            None => {
                proof {
                    assert(false);
                }
                unreached()
            },
        }
    }

    fn insert(&mut self, index: Index, value: T) {
        self.data.insert(index, value);
    }

    fn remove(&mut self, index: Index) -> (r: T) {
        match self.data.remove(&index) {
            Some(v) => v,
            None => {
                proof {
                    assert(false);
                }
                unreached()
            },
        }
    }

    fn clean(&mut self, has: &Mask) {
        self.data.clear();
        proof {
            assert(self.view() =~= Map::<Index, T>::empty());
        }
    }
}

impl<T> TryDefault for HashMapStorage<T> {
    open spec fn is_default(&self) -> bool {
        self.wf() && self.view() == Map::<Index, T>::empty()
    }

    fn try_default() -> (r: Result<Self, String>) {
        Ok(<HashMapStorage<T> as Storage<T>>::empty())
    }
}

/// Ordered-map storage, keyed by entity index.
pub struct BTreeStorage<T> {
    data: BTreeMap<Index, T>,
}

impl<T> Storage<T> for BTreeStorage<T> {
    closed spec fn wf(&self) -> bool {
        true
    }

    closed spec fn view(&self) -> Map<Index, T> {
        self.data@
    }

    fn empty() -> (s: Self)
        ensures
            s.wf(),
            s.view() == Map::<Index, T>::empty(),
    {
        let s = BTreeStorage { data: BTreeMap::new() };
        proof {
            assert(s.view() =~= Map::<Index, T>::empty());
        }
        s
    }

    fn get(&self, index: Index) -> (r: &T) {
        match self.data.get(&index) {
            Some(v) => v,
            None => {
                proof {
                    assert(false);
                }
                unreached()
            },
        }
    }

    fn insert(&mut self, index: Index, value: T) {
        self.data.insert(index, value);
    }

    fn remove(&mut self, index: Index) -> (r: T) {
        match self.data.remove(&index) {
            Some(v) => v,
            None => {
                proof {
                    assert(false);
                }
                unreached()
            },
        }
    }

    fn clean(&mut self, has: &Mask) {
        self.data.clear();
        proof {
            assert(self.view() =~= Map::<Index, T>::empty());
        }
    }
}

impl<T> TryDefault for BTreeStorage<T> {
    open spec fn is_default(&self) -> bool {
        self.wf() && self.view() == Map::<Index, T>::empty()
    }

    fn try_default() -> (r: Result<Self, String>) {
        Ok(<BTreeStorage<T> as Storage<T>>::empty())
    }
}

/// The storage together with the bitset that knows which indices hold a
/// value. Invariant: an index is readable from the backing store iff the
/// mask contains it.
pub struct MaskedStorage<T: Component> {
    mask: Mask,
    inner: T::Storage,
}

impl<T: Component> MaskedStorage<T> {
    /// The stored components, by entity index.
    pub closed spec fn view(&self) -> Map<Index, T> {
        self.inner.view()
    }

    /// The mask mirrors the backing store's occupied indices exactly.
    pub closed spec fn wf(&self) -> bool {
        self.mask.wf() && self.inner.wf() && forall|i: Index|
            #![trigger self.mask.has(i)]
            #![trigger self.view().contains_key(i)]
            self.mask.has(i) == self.view().contains_key(i)
    }

    /// Whether index `i` holds a component.
    pub open spec fn has(&self, i: Index) -> bool {
        self.view().contains_key(i)
    }

    /// Create a masked storage over a fresh backing store.
    pub fn new(inner: T::Storage) -> (r: MaskedStorage<T>)
        requires
            inner.wf(),
            inner.view() == Map::<Index, T>::empty(),
        ensures
            r.wf(),
            r.view() == Map::<Index, T>::empty(),
    {
        MaskedStorage { mask: Mask::new(), inner }
    }

    /// Create a masked storage with an empty default backing store.
    pub fn fresh() -> (r: MaskedStorage<T>)
        ensures
            r.wf(),
            r.view() == Map::<Index, T>::empty(),
    {
        MaskedStorage { mask: Mask::new(), inner: <T::Storage as Storage<T>>::empty() }
    }

    /// The mask of occupied indices.
    pub fn mask(&self) -> (r: &Mask)
        ensures
            r == self.mask_spec(),
    {
        &self.mask
    }

    /// The mask of occupied indices.
    pub closed spec fn mask_spec(&self) -> Mask {
        self.mask
    }

    /// Read the component at `index`, if present.
    pub fn get(&self, index: Index) -> (r: Option<&T>)
        requires
            self.wf(),
        ensures
            match r {
                Some(v) => self.has(index) && *v == self.view()[index],
                None => !self.has(index),
            },
    {
        if self.mask.contains(index) {
            Some(self.inner.get(index))
        } else {
            None
        }
    }

    /// Insert a component for `index`: overwrites and returns the
    /// previous component if the index already held one.
    pub fn insert(&mut self, entity: Entity, component: T) -> (r: Option<T>)
        requires
            old(self).wf(),
        ensures
            final(self).wf(),
            final(self).view() == old(self).view().insert(entity.index, component),
            r == (if old(self).has(entity.index) {
                Some(old(self).view()[entity.index])
            } else {
                None::<T>
            }),
    {
        let index = entity.index();
        if self.mask.contains(index) {
            let prev = self.inner.remove(index);
            self.inner.insert(index, component);
            proof {
                assert(self.view() =~= old(self).view().insert(index, component));
            }
            Some(prev)
        } else {
            self.mask.add(index);
            self.inner.insert(index, component);
            None
        }
    }

    /// Remove the component at `index`, returning it; a vacant index is
    /// a no-op returning nothing.
    pub fn remove(&mut self, index: Index) -> (r: Option<T>)
        requires
            old(self).wf(),
        ensures
            final(self).wf(),
            final(self).view() == old(self).view().remove(index),
            r == (if old(self).has(index) {
                Some(old(self).view()[index])
            } else {
                None::<T>
            }),
    {
        if self.mask.remove(index) {
            Some(self.inner.remove(index))
        } else {
            proof {
                assert(self.view() =~= old(self).view().remove(index));
            }
            None
        }
    }

    /// Drop the component at `index` without returning it.
    pub fn drop(&mut self, index: Index)
        requires
            old(self).wf(),
        ensures
            final(self).wf(),
            final(self).view() == old(self).view().remove(index),
    {
        if self.mask.remove(index) {
            let _ = self.inner.remove(index);
        } else {
            proof {
                assert(self.view() =~= old(self).view().remove(index));
            }
        }
    }

    /// Clear the contents of this storage.
    pub fn clear(&mut self)
        requires
            old(self).wf(),
        ensures
            final(self).wf(),
            final(self).view() == Map::<Index, T>::empty(),
    {
        self.inner.clean(&self.mask);
        self.mask.clear();
    }

    /// Drain the storage: remove every component and hand the pairs out
    /// in ascending index order.
    pub fn drain(&mut self) -> (r: Vec<(Index, T)>)
        requires
            old(self).wf(),
        ensures
            final(self).wf(),
            final(self).view() == Map::<Index, T>::empty(),
            forall|p: int, q: int| 0 <= p < q < r@.len() ==> r@[p].0 < r@[q].0,
            forall|p: int|
                0 <= p < r@.len() ==> old(self).has((#[trigger] r@[p]).0) && r@[p].1 == old(
                    self,
                ).view()[r@[p].0],
            forall|i: Index|
                #![trigger old(self).has(i)]
                old(self).has(i) ==> exists|p: int| 0 <= p < r@.len() && (#[trigger] r@[p]).0
                    == i,
    {
        let keys = self.mask.iter_indices();
        let mut r: Vec<(Index, T)> = Vec::new();
        let mut k: usize = 0;
        while k < keys.len()
            invariant
                k <= keys@.len(),
                self.wf(),
                r@.len() == k,
                forall|p: int, q: int| 0 <= p < q < keys@.len() ==> keys@[p] < keys@[q],
                forall|i: Index| #[trigger] keys@.contains(i) == old(self).has(i),
                forall|p: int|
                    0 <= p < k ==> (#[trigger] r@[p]).0 == keys@[p] && old(self).has(keys@[p])
                        && r@[p].1 == old(self).view()[keys@[p]],
                forall|i: Index|
                    #![trigger self.has(i)]
                    self.has(i) == (old(self).has(i) && !listed_before(keys@, k as int, i)),
                forall|i: Index|
                    #![trigger self.view()[i]]
                    self.has(i) ==> self.view()[i] == old(self).view()[i],
            decreases keys@.len() - k,
        {
            let i = keys[k];
            let ghost t0 = k as int;
            proof {
                assert(keys@.contains(i));
                assert(!listed_before(keys@, t0, i)) by {
                    if listed_before(keys@, t0, i) {
                        let p = choose|p: int| 0 <= p < t0 && keys@[p] == i;
                        assert(keys@[p] < keys@[t0]);
                    }
                }
            }
            let ghost s_pre = *self;
            match self.remove(i) {
                Some(value) => {
                    r.push((i, value));
                },
                None => {
                    proof {
                        assert(false);
                    }
                },
            }
            k = k + 1;
            proof {
                assert(self.view() == s_pre.view().remove(i));
                assert forall|j: Index|
                    self.has(j) == (old(self).has(j) && !listed_before(keys@, k as int, j)) by {
                    assert(s_pre.has(j) == (old(self).has(j) && !listed_before(keys@, t0, j)));
                    assert(self.has(j) == (s_pre.has(j) && j != i));
                    if j == i {
                        assert(keys@[t0] == j);
                        assert(listed_before(keys@, k as int, j));
                    } else {
                        if listed_before(keys@, k as int, j) {
                            let p = choose|p: int| 0 <= p < k && keys@[p] == j;
                            assert(p != t0);
                            assert(listed_before(keys@, t0, j));
                        }
                        if listed_before(keys@, t0, j) {
                            let p = choose|p: int| 0 <= p < t0 && keys@[p] == j;
                            assert(0 <= p < k as int);
                            assert(listed_before(keys@, k as int, j));
                        }
                    }
                }
            }
        }
        proof {
            assert forall|i: Index| !self.has(i) by {
                if old(self).has(i) {
                    assert(keys@.contains(i));
                    let p = choose|p: int| 0 <= p < keys@.len() && keys@[p] == i;
                    assert(listed_before(keys@, keys@.len() as int, i));
                }
            }
            assert forall|i: Index| !(#[trigger] self.view().dom().contains(i)) by {
                assert(!self.has(i));
            }
            assert(self.view() =~= Map::<Index, T>::empty());
            assert forall|i: Index| old(self).has(i) implies exists|p: int|
                0 <= p < r@.len() && (#[trigger] r@[p]).0 == i by {
                assert(keys@.contains(i));
                let p = choose|p: int| 0 <= p < keys@.len() && keys@[p] == i;
                assert(r@[p].0 == i);
            }
        }
        r
    }
}

/// Round-trip: inserting a component for an entity and immediately
/// reading that entity's slot back returns the just-inserted value
/// unchanged, with no hidden transformation.
pub proof fn lemma_insert_round_trip<T>(v: Map<Index, T>, e: Entity, c: T)
    ensures
        v.insert(e.index, c).contains_key(e.index),
        v.insert(e.index, c)[e.index] == c,
{
}

impl<T: Component> MaskedStorage<T> {
    /// Drop the slots of entities that the registry has removed, during
    /// world maintenance; every other slot keeps its component.
    pub fn drop_dead(&mut self, deleted: &Vec<Entity>)
        requires
            old(self).wf(),
        ensures
            final(self).wf(),
            forall|i: Index|
                #![trigger final(self).view().contains_key(i)]
                final(self).view().contains_key(i) == (old(self).view().contains_key(i) && !(
                exists|p: int| 0 <= p < deleted@.len() && (#[trigger] deleted@[p]).index == i)),
            forall|i: Index|
                #![trigger final(self).view()[i]]
                final(self).view().contains_key(i) ==> final(self).view()[i] == old(
                    self,
                ).view()[i],
    {
        let ghost v0 = self.view();
        let mut k: usize = 0;
        while k < deleted.len()
            invariant
                k <= deleted@.len(),
                self.wf(),
                forall|i: Index|
                    #![trigger self.view().contains_key(i)]
                    self.view().contains_key(i) == (v0.contains_key(i) && !(exists|p: int|
                        0 <= p < k && (#[trigger] deleted@[p]).index == i)),
                forall|i: Index|
                    #![trigger self.view()[i]]
                    self.view().contains_key(i) ==> self.view()[i] == v0[i],
            decreases deleted@.len() - k,
        {
            let ghost vpre = self.view();
            let index = deleted[k].index();
            self.drop(index);
            k = k + 1;
            proof {
                assert forall|i: Index|
                    self.view().contains_key(i) == (v0.contains_key(i) && !(exists|p: int|
                        0 <= p < k && (#[trigger] deleted@[p]).index == i)) by {
                    if i == index {
                        assert(deleted@[k - 1].index == i);
                    } else {
                        assert(self.view().contains_key(i) == vpre.contains_key(i));
                        if exists|p: int|
                            0 <= p < k && (#[trigger] deleted@[p]).index == i {
                            let p = choose|p: int|
                                0 <= p < k && (#[trigger] deleted@[p]).index == i;
                            assert(p < k - 1);
                        }
                    }
                }
            }
        }
    }
}

/// Cleanup capability for a type-erased storage registry: drop the slots
/// of entities that have been removed.
pub trait AnyStorage {
    /// The storage's own consistency invariant.
    spec fn any_wf(&self) -> bool;

    /// Whether index `i` currently holds a component.
    spec fn any_has(&self, i: Index) -> bool;

    /// Drop the slot of every given entity's index; the other slots
    /// stay.
    fn drop_entities(&mut self, entities: &Vec<Entity>)
        requires
            old(self).any_wf(),
        ensures
            final(self).any_wf(),
            forall|i: Index|
                #![trigger final(self).any_has(i)]
                final(self).any_has(i) == (old(self).any_has(i) && !(exists|p: int|
                    0 <= p < entities@.len() && (#[trigger] entities@[p]).index == i)),
    ;
}

impl<T: Component> AnyStorage for MaskedStorage<T> {
    closed spec fn any_wf(&self) -> bool {
        self.wf()
    }

    closed spec fn any_has(&self, i: Index) -> bool {
        self.has(i)
    }

    fn drop_entities(&mut self, entities: &Vec<Entity>) {
        self.drop_dead(entities);
    }
}

/// A wrapper pairing a masked storage with the liveness checks that the
/// public component API performs against the entity registry: every
/// access verifies that the entity is still alive.
pub struct StorageWrapper<T: Component> {
    data: MaskedStorage<T>,
}

impl<T: Component> StorageWrapper<T> {
    /// The stored components, by entity index.
    pub open spec fn view(&self) -> Map<Index, T> {
        self.data_spec().view()
    }

    /// The wrapped masked storage.
    pub closed spec fn data_spec(&self) -> MaskedStorage<T> {
        self.data
    }

    /// The wrapper is as consistent as its masked storage.
    pub open spec fn wf(&self) -> bool {
        self.data_spec().wf()
    }

    /// Wrap a masked storage.
    pub fn new(data: MaskedStorage<T>) -> (r: StorageWrapper<T>)
        ensures
            r.data_spec() == data,
    {
        StorageWrapper { data }
    }

    /// Tries to read the component of an entity: present only if the
    /// storage holds its index and the entity is still alive.
    pub fn get<'a>(&'a self, entities: &Entities, e: Entity) -> (r: Option<&'a T>)
        requires
            self.wf(),
        ensures
            match r {
                Some(v) => self.view().contains_key(e.index) && entities.is_alive_spec(e) && *v
                    == self.view()[e.index],
                None => !(self.view().contains_key(e.index) && entities.is_alive_spec(e)),
            },
    {
        if self.data.mask().contains(e.index()) && entities.is_alive(e) {
            self.data.get(e.index())
        } else {
            None
        }
    }

    /// Returns true if the storage has a component for this entity, and
    /// that entity is alive.
    pub fn contains(&self, entities: &Entities, e: Entity) -> (r: bool)
        requires
            self.wf(),
        ensures
            r == (self.view().contains_key(e.index) && entities.is_alive_spec(e)),
    {
        self.data.mask().contains(e.index()) && entities.is_alive(e)
    }

    /// Inserts a component for a live entity, returning the overwritten
    /// component if there was one; inserting for a dead entity fails and
    /// changes nothing.
    pub fn insert(&mut self, entities: &Entities, entity: Entity, component: T) -> (r: Result<
        Option<T>,
        Error,
    >)
        requires
            old(self).wf(),
        ensures
            final(self).wf(),
            match r {
                Ok(prev) => {
                    &&& entities.is_alive_spec(entity)
                    &&& final(self).view() == old(self).view().insert(entity.index, component)
                    &&& prev == (if old(self).view().contains_key(entity.index) {
                        Some(old(self).view()[entity.index])
                    } else {
                        None::<T>
                    })
                },
                Err(Error::EntityIsNotAlive(e)) => {
                    &&& !entities.is_alive_spec(entity)
                    &&& e == entity
                    &&& final(self).view() == old(self).view()
                },
            },
    {
        if !entities.is_alive(entity) {
            return Err(Error::EntityIsNotAlive(entity));
        }
        Ok(self.data.insert(entity, component))
    }

    /// Removes the component of a live entity, returning it.
    pub fn remove(&mut self, entities: &Entities, e: Entity) -> (r: Option<T>)
        requires
            old(self).wf(),
        ensures
            final(self).wf(),
            entities.is_alive_spec(e) ==> final(self).view() == old(self).view().remove(e.index)
                && r == (if old(self).view().contains_key(e.index) {
                Some(old(self).view()[e.index])
            } else {
                None::<T>
            }),
            !entities.is_alive_spec(e) ==> final(self).view() == old(self).view() && r is None,
    {
        if entities.is_alive(e) {
            self.data.remove(e.index())
        } else {
            None
        }
    }

    /// Clears the contents of the storage.
    pub fn clear(&mut self)
        requires
            old(self).wf(),
        ensures
            final(self).wf(),
            final(self).view() == Map::<Index, T>::empty(),
    {
        self.data.clear();
    }

    /// Drop the slots of entities that the registry has removed, during
    /// world maintenance.
    pub fn drop_dead(&mut self, deleted: &Vec<Entity>)
        requires
            old(self).wf(),
        ensures
            final(self).wf(),
            forall|i: Index|
                #![trigger final(self).view().contains_key(i)]
                final(self).view().contains_key(i) == (old(self).view().contains_key(i) && !(
                exists|p: int| 0 <= p < deleted@.len() && (#[trigger] deleted@[p]).index == i)),
            forall|i: Index|
                #![trigger final(self).view()[i]]
                final(self).view().contains_key(i) ==> final(self).view()[i] == old(
                    self,
                ).view()[i],
    {
        self.data.drop_dead(deleted);
    }

    /// The ascending indices that currently hold a component.
    pub fn mask_indices(&self) -> (r: Vec<Index>)
        requires
            self.wf(),
        ensures
            forall|p: int, q: int| 0 <= p < q < r@.len() ==> r@[p] < r@[q],
            forall|i: Index| #[trigger] r@.contains(i) == self.view().contains_key(i),
    {
        self.data.mask().iter_indices()
    }

    /// Computes the number of components this storage holds, by counting
    /// the bits of the mask. This is never performed in constant time.
    pub fn count(&self) -> (n: usize)
        requires
            self.wf(),
        ensures
            self.view().dom().finite(),
            n == self.view().dom().len(),
    {
        let keys = self.data.mask().iter_indices();
        proof {
            broadcast use vstd::seq_lib::seq_to_set_is_finite;

            assert(keys@.no_duplicates());
            keys@.unique_seq_to_set();
            assert forall|i: Index|
                keys@.to_set().contains(i) == self.view().dom().contains(i) by {
                assert(keys@.to_set().contains(i) == keys@.contains(i));
                assert(keys@.contains(i) == self.data_spec().mask_spec().has(i));
            }
            assert(keys@.to_set() =~= self.view().dom());
        }
        keys.len()
    }

    /// Whether the storage holds no component at all.
    pub fn is_empty(&self) -> (r: bool)
        requires
            self.wf(),
        ensures
            r == (forall|i: Index| !self.view().contains_key(i)),
    {
        let r = self.data.mask().is_empty();
        proof {
            if r {
                assert forall|i: Index| !self.view().contains_key(i) by {
                    assert(!self.data_spec().mask_spec().has(i));
                }
            } else {
                let i = choose|i: Index| self.data_spec().mask_spec().has(i);
                assert(self.view().contains_key(i));
            }
        }
        r
    }
}

} // verus!
