use vstd::prelude::*;
use crate::entity::{Entity, Generation, Index};
use crate::mask::Mask;

verus! {

/// Error of the entity registry: an operation met an entity that is no
/// longer alive.
#[derive(Clone, Copy, Debug, PartialEq, Eq)]
pub enum Error {
    EntityIsDead { id: u64, op: &'static str },
}

/// The next generation after `g`, wrapping on overflow.
pub open spec fn bump(g: Generation) -> Generation {
    if g == u32::MAX {
        0
    } else {
        (g + 1) as Generation
    }
}

/// The abstract state of the entity registry: which indices are alive,
/// which were raised or killed since the last maintenance pass, the
/// per-index generations, the free-index cache and the high-water mark.
pub struct EntitiesSnap {
    pub alive: Set<Index>,
    pub raised: Set<Index>,
    pub killed: Set<Index>,
    pub generations: Seq<Generation>,
    pub cache: Seq<Index>,
    pub max_index: Index,
}

/// The stored generation of index `i`, or zero where the vector does not
/// reach it.
pub open spec fn snap_gen(s: EntitiesSnap, i: Index) -> Generation {
    if (i as int) < s.generations.len() {
        s.generations[i as int]
    } else {
        0
    }
}

/// The generation vector after a maintenance pass: extended to cover the
/// high-water mark, with every buffered raise applied.
pub open spec fn snap_maintain_generations(s: EntitiesSnap) -> Seq<Generation> {
    Seq::new(
        if s.generations.len() > s.max_index as int + 2 {
            s.generations.len() as nat
        } else {
            (s.max_index + 2) as nat
        },
        |k: int|
            {
                let g = if k < s.generations.len() {
                    s.generations[k]
                } else {
                    0u32
                };
                if k <= s.max_index as int && s.raised.contains(k as Index) {
                    bump(g)
                } else {
                    g
                }
            },
    )
}

/// Liveness of `e` in state `s`: its index is alive (or raised since the
/// last maintenance) and its generation matches the stored one
/// (accounting for the not-yet-applied raise).
pub open spec fn snap_is_alive(s: EntitiesSnap, e: Entity) -> bool {
    if s.raised.contains(e.index) {
        e.generation == bump(snap_gen(s, e.index))
    } else {
        (e.index as int) < s.generations.len() && s.alive.contains(e.index) && e.generation
            == s.generations[e.index as int]
    }
}

/// Extend the generation vector with zeroes so that `index` is in range.
pub open spec fn snap_update_generations(s: EntitiesSnap, index: int) -> EntitiesSnap {
    if s.generations.len() <= index {
        EntitiesSnap { generations: s.generations + Seq::new((index + 1 - s.generations.len()) as nat, |k: int| 0u32), ..s }
    } else {
        s
    }
}

/// The state after killing one entity (whose liveness was checked): the
/// index leaves the alive set and the kill buffer; a buffered raise is
/// applied to the generation on the way out.
pub open spec fn snap_kill_one(s: EntitiesSnap, e: Entity) -> EntitiesSnap {
    let i = e.index;
    let s1 = EntitiesSnap {
        alive: s.alive.remove(i),
        killed: s.killed.remove(i),
        ..s
    };
    let s2 = snap_update_generations(s1, i as int);
    if s.raised.contains(i) {
        EntitiesSnap {
            raised: s2.raised.remove(i),
            generations: s2.generations.update(i as int, bump(s2.generations[i as int])),
            ..s2
        }
    } else {
        EntitiesSnap { raised: s2.raised.remove(i), ..s2 }
    }
}

/// The state after killing the first `n` entities of `d` in order.
pub open spec fn snap_kill_prefix(s: EntitiesSnap, d: Seq<Entity>, n: int) -> EntitiesSnap
    decreases n,
{
    if n <= 0 {
        s
    } else {
        snap_kill_one(snap_kill_prefix(s, d, n - 1), d[n - 1])
    }
}

/// Every one of the first `n` entities of `d` is alive at its turn.
pub open spec fn snap_kill_ok_upto(s: EntitiesSnap, d: Seq<Entity>, n: int) -> bool {
    forall|p: int| 0 <= p < n ==> snap_is_alive(snap_kill_prefix(s, d, p), #[trigger] d[p])
}

/// Index `j` occurs among the first `n` entries of `list`.
pub open spec fn listed_before(list: Seq<Index>, n: int, j: Index) -> bool {
    exists|p: int| 0 <= p < n && list[p] == j
}

/// The free-index cache: a stack of recycled indices. The shared-access
/// pop path only moves the fence `len`, leaving the vector to be
/// compacted by the next exclusive-access operation.
pub struct IndexCache {
    cache: Vec<Index>,
    len: u32,
}

impl IndexCache {
    /// The live part of the stack, bottom first.
    pub closed spec fn live(&self) -> Seq<Index> {
        self.cache@.subrange(0, self.len as int)
    }

    /// The fence never runs past the backing vector.
    pub closed spec fn wf(&self) -> bool {
        self.len as int <= self.cache@.len()
    }

    /// Create an empty cache.
    pub fn new() -> (r: IndexCache)
        ensures
            r.wf(),
            r.live() == Seq::<Index>::empty(),
    {
        let r = IndexCache { cache: Vec::new(), len: 0 };
        proof {
            assert(r.live() =~= Seq::<Index>::empty());
        }
        r
    }

    /// Compact the backing vector down to the live part.
    fn maintain(&mut self)
        requires
            old(self).wf(),
        ensures
            final(self).wf(),
            final(self).live() == old(self).live(),
            final(self).cache@ == old(self).live(),
    {
        self.cache.truncate(self.len as usize);
        proof {
            assert(self.cache@ =~= old(self).live());
            assert(self.live() =~= old(self).live());
        }
    }

    /// Push a recycled index on the stack.
    pub fn push(&mut self, index: Index)
        requires
            old(self).wf(),
            old(self).live().len() < u32::MAX,
        ensures
            final(self).wf(),
            final(self).live() == old(self).live().push(index),
    {
        self.maintain();
        self.cache.push(index);
        self.len = self.cache.len() as u32;
        proof {
            assert(self.live() =~= old(self).live().push(index));
        }
    }

    /// Push every given index, in order.
    pub fn extend(&mut self, indices: &Vec<Index>)
        requires
            old(self).wf(),
            old(self).live().len() + indices@.len() < u32::MAX,
        ensures
            final(self).wf(),
            final(self).live() == old(self).live() + indices@,
    {
        let mut k: usize = 0;
        while k < indices.len()
            invariant
                k <= indices@.len(),
                self.wf(),
                old(self).live().len() + indices@.len() < u32::MAX,
                self.live() == old(self).live() + indices@.subrange(0, k as int),
            decreases indices@.len() - k,
        {
            self.push(indices[k]);
            k = k + 1;
            proof {
                assert(self.live() =~= old(self).live() + indices@.subrange(0, k as int));
            }
        }
        proof {
            assert(indices@.subrange(0, indices@.len() as int) =~= indices@);
        }
    }

    /// The number of cached indices.
    pub fn len(&self) -> (n: u32)
        requires
            self.wf(),
        ensures
            n == self.live().len(),
    {
        self.len
    }

    /// Pop through shared access: move the fence down without touching
    /// the vector, as the atomic-length path does.
    pub fn pop_atomic(&mut self) -> (r: Option<Index>)
        requires
            old(self).wf(),
        ensures
            final(self).wf(),
            old(self).live().len() == 0 ==> r is None && final(self).live() == old(self).live(),
            old(self).live().len() > 0 ==> r == Some(old(self).live().last())
                && final(self).live() == old(self).live().drop_last(),
    {
        match atomic_decrement(&mut self.len) {
            Some(x) => {
                let r = self.cache[(x - 1) as usize];
                proof {
                    assert(self.live() =~= old(self).live().drop_last());
                }
                Some(r)
            },
            None => None,
        }
    }

    /// Pop through exclusive access.
    pub fn pop(&mut self) -> (r: Option<Index>)
        requires
            old(self).wf(),
        ensures
            final(self).wf(),
            old(self).live().len() == 0 ==> r is None && final(self).live() == old(self).live(),
            old(self).live().len() > 0 ==> r == Some(old(self).live().last())
                && final(self).live() == old(self).live().drop_last(),
    {
        self.maintain();
        let x = self.cache.pop();
        self.len = self.cache.len() as u32;
        proof {
            if old(self).live().len() == 0 {
                assert(self.live() =~= old(self).live());
            } else {
                assert(self.live() =~= old(self).live().drop_last());
            }
        }
        x
    }
}

/// Increment through shared access without wrapping: the counterpart of
/// a compare-and-swap retry loop, returning the previous value, or
/// nothing at the ceiling.
pub fn atomic_increment(i: &mut u32) -> (r: Option<u32>)
    ensures
        *old(i) == u32::MAX ==> r is None && *final(i) == *old(i),
        *old(i) < u32::MAX ==> r == Some(*old(i)) && *final(i) == *old(i) + 1,
{
    if *i != u32::MAX {
        let prev = *i;
        *i = *i + 1;
        Some(prev)
    } else {
        None
    }
}

/// Decrement through shared access without wrapping: returns the
/// previous value, or nothing at zero.
pub fn atomic_decrement(i: &mut u32) -> (r: Option<u32>)
    ensures
        *old(i) == 0 ==> r is None && *final(i) == *old(i),
        *old(i) > 0 ==> r == Some(*old(i)) && *final(i) == *old(i) - 1,
{
    if *i != 0 {
        let prev = *i;
        *i = *i - 1;
        Some(prev)
    } else {
        None
    }
}

/// The generational entity registry: a bitset of alive indices, a
/// per-index generation vector, a free-index stack, a high-water mark,
/// and two buffers of indices raised or killed through shared access
/// since the last maintenance pass.
pub struct Entities {
    alive: Mask,
    raised: Mask,
    killed: Mask,
    cache: IndexCache,
    generations: Vec<Generation>,
    max_index: u32,
}

impl View for Entities {
    type V = EntitiesSnap;

    closed spec fn view(&self) -> EntitiesSnap {
        EntitiesSnap {
            alive: Set::new(|i: Index| self.alive.has(i)),
            raised: Set::new(|i: Index| self.raised.has(i)),
            killed: Set::new(|i: Index| self.killed.has(i)),
            generations: self.generations@,
            cache: self.cache.live(),
            max_index: self.max_index,
        }
    }
}

impl Entities {
    /// Internal consistency: every recorded index is at or below the
    /// high-water mark, and alive indices have a generation entry.
    pub closed spec fn wf(&self) -> bool {
        &&& self.alive.wf()
        &&& self.raised.wf()
        &&& self.killed.wf()
        &&& self.cache.wf()
        &&& forall|i: Index|
            self.alive.has(i) ==> (i as int) < self.generations@.len() && i <= self.max_index
        &&& forall|i: Index| self.raised.has(i) ==> i <= self.max_index
        &&& forall|i: Index| self.killed.has(i) ==> i <= self.max_index
        &&& forall|p: int|
            0 <= p < self.cache.live().len() ==> (#[trigger] self.cache.live()[p])
                <= self.max_index
    }

    /// Liveness of `e` in the current state.
    pub open spec fn is_alive_spec(&self, e: Entity) -> bool {
        snap_is_alive(self@, e)
    }

    /// Create an empty registry.
    pub fn new() -> (r: Entities)
        ensures
            r.wf(),
            r@.alive == Set::<Index>::empty(),
            r@.raised == Set::<Index>::empty(),
            r@.killed == Set::<Index>::empty(),
            r@.generations == Seq::<Generation>::empty(),
            r@.cache == Seq::<Index>::empty(),
            r@.max_index == 0,
    {
        let r = Entities {
            alive: Mask::new(),
            raised: Mask::new(),
            killed: Mask::new(),
            cache: IndexCache::new(),
            generations: Vec::new(),
            max_index: 0,
        };
        proof {
            assert(r@.alive =~= Set::<Index>::empty());
            assert(r@.raised =~= Set::<Index>::empty());
            assert(r@.killed =~= Set::<Index>::empty());
        }
        r
    }

    /// Returns `true` if the specified entity is alive.
    #[inline]
    pub fn is_alive(&self, entity: Entity) -> (r: bool)
        ensures
            r == self.is_alive_spec(entity),
    {
        let idx = entity.index();
        let gen = entity.generation();
        if self.raised.contains(idx) {
            let g = if (idx as usize) < self.generations.len() {
                self.generations[idx as usize]
            } else {
                0
            };
            gen == gen_bump(g)
        } else {
            (idx as usize) < self.generations.len() && self.alive.contains(idx) && gen
                == self.generations[idx as usize]
        }
    }

    /// Grow the generation vector so that `index` is in range.
    fn update_generations(&mut self, index: usize)
        ensures
            final(self)@ == snap_update_generations(old(self)@, index as int),
            final(self).generations@.len() > index,
            final(self).alive == old(self).alive,
            final(self).raised == old(self).raised,
            final(self).killed == old(self).killed,
            final(self).cache == old(self).cache,
            final(self).max_index == old(self).max_index,
    {
        let ghost s0 = self@;
        while self.generations.len() <= index
            invariant
                self.generations@.len() >= s0.generations.len(),
                self.generations@.len() <= s0.generations.len() || self.generations@.len()
                    <= index + 1,
                forall|k: int|
                    0 <= k < self.generations@.len() ==> self.generations@[k] == (
                    if k < s0.generations.len() {
                        s0.generations[k]
                    } else {
                        0u32
                    }),
                self.alive == old(self).alive,
                self.raised == old(self).raised,
                self.killed == old(self).killed,
                self.cache == old(self).cache,
                self.max_index == old(self).max_index,
                s0 == old(self)@,
            decreases index + 1 - self.generations.len(),
        {
            self.generations.push(0);
        }
        proof {
            assert(self@.generations =~= snap_update_generations(s0, index as int).generations);
            assert(self@ == snap_update_generations(s0, index as int));
        }
    }

    /// Whether another entity can be reserved: a freed index is cached,
    /// or the index space still has room. Exhaustion of the 32-bit index
    /// space is the one failure the allocation paths do not model, so the
    /// host checks this first and fails its own way.
    pub fn can_allocate(&self) -> (r: bool)
        requires
            self.wf(),
        ensures
            r == (self@.cache.len() > 0 || self@.max_index < u32::MAX),
    {
        self.cache.len() > 0 || self.max_index < u32::MAX
    }

    /// Whether a maintenance pass has room to recycle every index the
    /// kill buffer could hold into the free-index cache.
    pub fn can_maintain(&self) -> (r: bool)
        requires
            self.wf(),
        ensures
            r == (self@.max_index < u32::MAX && self@.cache.len() + self@.max_index + 1
                < u32::MAX),
    {
        self.max_index < u32::MAX && (self.cache.len() as u64) + (self.max_index as u64) + 1 < (
        u32::MAX as u64)
    }

    /// Whether the free-index cache has room for a batch of this size.
    pub fn can_kill(&self, batch_len: usize) -> (r: bool)
        requires
            self.wf(),
        ensures
            r == (self@.cache.len() + batch_len < u32::MAX),
    {
        (batch_len as u64) < (u32::MAX as u64) && (self.cache.len() as u64) + (batch_len as u64)
            < (u32::MAX as u64)
    }

    /// Creates a new entity, persistent immediately: reuses the most
    /// recently freed index, or extends the index space by one; bumps
    /// that index's generation and marks it alive.
    pub fn allocate(&mut self) -> (e: Entity)
        requires
            old(self).wf(),
            old(self)@.cache.len() > 0 || old(self)@.max_index < u32::MAX,
        ensures
            final(self).wf(),
            ({
                let s = old(self)@;
                let index: Index = if s.cache.len() > 0 {
                    s.cache.last()
                } else {
                    (s.max_index + 1) as Index
                };
                let g = bump(snap_gen(s, index));
                &&& e.index == index
                &&& e.generation == g
                &&& final(self)@ == (EntitiesSnap {
                    alive: s.alive.insert(index),
                    generations: snap_update_generations(s, index as int).generations.update(
                        index as int,
                        g,
                    ),
                    cache: if s.cache.len() > 0 {
                        s.cache.drop_last()
                    } else {
                        s.cache
                    },
                    max_index: if s.cache.len() > 0 {
                        s.max_index
                    } else {
                        (s.max_index + 1) as Index
                    },
                    ..s
                })
                &&& !s.raised.contains(index) ==> final(self).is_alive_spec(e)
            }),
    {
        let ghost s = self@;
        let index: Index = match self.cache.pop() {
            Some(i) => i,
            None => {
                let next = self.max_index + 1;
                self.max_index = next;
                next
            },
        };
        self.update_generations(index as usize);
        self.alive.add(index);
        let g = gen_bump(self.generations[index as usize]);
        self.generations.set(index as usize, g);
        let e = Entity::from_parts(index, g);
        proof {
            assert(self@.alive =~= s.alive.insert(index));
            assert(self@.raised =~= s.raised);
            assert(self@.killed =~= s.killed);
            assert(self@.generations =~= snap_update_generations(s, index as int)
                .generations.update(index as int, bump(snap_gen(s, index))));
        }
        e
    }

    /// Creates a new entity atomically through shared access: the index
    /// is reserved and buffered as raised; it becomes persistent on
    /// `maintain`. The entity is alive immediately through the raised
    /// buffer.
    pub fn create(&mut self) -> (e: Entity)
        requires
            old(self).wf(),
            old(self)@.cache.len() > 0 || old(self)@.max_index < u32::MAX,
        ensures
            final(self).wf(),
            ({
                let s = old(self)@;
                let index: Index = if s.cache.len() > 0 {
                    s.cache.last()
                } else {
                    (s.max_index + 1) as Index
                };
                let g = bump(snap_gen(s, index));
                &&& e.index == index
                &&& e.generation == g
                &&& final(self)@ == (EntitiesSnap {
                    raised: s.raised.insert(index),
                    cache: if s.cache.len() > 0 {
                        s.cache.drop_last()
                    } else {
                        s.cache
                    },
                    max_index: if s.cache.len() > 0 {
                        s.max_index
                    } else {
                        (s.max_index + 1) as Index
                    },
                    ..s
                })
                &&& final(self).is_alive_spec(e)
            }),
    {
        let ghost s = self@;
        let index: Index = match self.cache.pop_atomic() {
            Some(i) => i,
            None => {
                match atomic_increment(&mut self.max_index) {
                    Some(prev) => prev + 1,
                    None => {
                        proof {
                            assert(false);
                        }
                        0
                    },
                }
            },
        };
        self.raised.add(index);
        let generation = gen_bump(
            if (index as usize) < self.generations.len() {
                self.generations[index as usize]
            } else {
                0
            },
        );
        let e = Entity::from_parts(index, generation);
        proof {
            assert(self@.raised =~= s.raised.insert(index));
            assert(self@.alive =~= s.alive);
            assert(self@.killed =~= s.killed);
        }
        e
    }

    /// Deletes an entity atomically through shared access: the index is
    /// buffered as killed; the components go away on `maintain`.
    pub fn delete(&mut self, entity: Entity) -> (r: Result<(), Error>)
        requires
            old(self).wf(),
        ensures
            final(self).wf(),
            match r {
                Ok(()) => old(self).is_alive_spec(entity) && final(self)@ == (EntitiesSnap {
                    killed: old(self)@.killed.insert(entity.index),
                    ..old(self)@
                }),
                Err(Error::EntityIsDead { id, op }) => {
                    &&& !old(self).is_alive_spec(entity)
                    &&& id == entity.id_spec()
                    &&& op@ == "delete"@
                    &&& final(self)@ == old(self)@
                },
            },
    {
        if !self.is_alive(entity) {
            return Err(Error::EntityIsDead { id: entity.id(), op: "delete" });
        }
        let index = entity.index();
        proof {
            if self.raised.has(index) {
            } else {
                assert(self@.alive.contains(index));
            }
        }
        self.killed.add(index);
        proof {
            assert(self@.killed =~= old(self)@.killed.insert(index));
            assert(self@.alive =~= old(self)@.alive);
            assert(self@.raised =~= old(self)@.raised);
        }
        Ok(())
    }

    /// Kills a list of entities immediately, in order, stopping at the
    /// first entity that is not alive at its turn: the batch aborts at
    /// the first error, and the kills already applied before it stay
    /// applied (first-error-abort, not all-or-nothing). Only a batch
    /// that went through recycles its indices.
    #[verifier::rlimit(100)]
    pub fn kill(&mut self, delete: &[Entity]) -> (r: Result<(), Error>)
        requires
            old(self).wf(),
            old(self)@.cache.len() + delete@.len() < u32::MAX,
        ensures
            final(self).wf(),
            match r {
                Ok(()) => {
                    &&& snap_kill_ok_upto(old(self)@, delete@, delete@.len() as int)
                    &&& final(self)@ == (EntitiesSnap {
                        cache: snap_kill_prefix(old(self)@, delete@, delete@.len() as int).cache
                            + delete@.map(|p: int, e: Entity| e.index),
                        ..snap_kill_prefix(old(self)@, delete@, delete@.len() as int)
                    })
                },
                Err(Error::EntityIsDead { id, op }) => {
                    &&& exists|p: int|
                        {
                            &&& 0 <= p < delete@.len()
                            &&& snap_kill_ok_upto(old(self)@, delete@, p)
                            &&& !snap_is_alive(
                                snap_kill_prefix(old(self)@, delete@, p),
                                #[trigger] delete@[p],
                            )
                            &&& id == delete@[p].id_spec()
                            &&& final(self)@ == snap_kill_prefix(old(self)@, delete@, p)
                        }
                    &&& op@ == "kill"@
                },
            },
    {
        let ghost s0 = self@;
        let ghost d = delete@;
        let mut p: usize = 0;
        while p < delete.len()
            invariant
                self.wf(),
                p <= d.len(),
                delete@ == d,
                s0 == old(self)@,
                s0.cache.len() + d.len() < u32::MAX,
                self@ == snap_kill_prefix(s0, d, p as int),
                snap_kill_ok_upto(s0, d, p as int),
                self@.cache == s0.cache,
                self@.max_index == s0.max_index,
                forall|q: int| 0 <= q < p ==> (#[trigger] d[q]).index <= s0.max_index,
            decreases d.len() - p,
        {
            let entity = delete[p];
            if !self.is_alive(entity) {
                proof {
                    assert(!snap_is_alive(snap_kill_prefix(s0, d, p as int), d[p as int]));
                }
                return Err(Error::EntityIsDead { id: entity.id(), op: "kill" });
            }
            let index = entity.index();
            proof {
                assert(index <= s0.max_index) by {
                    if self.raised.has(index) {
                    } else {
                        assert(self@.alive.contains(index));
                    }
                }
            }
            self.alive.remove(index);
            self.killed.remove(index);
            let ghost s_removed = self@;
            self.update_generations(index as usize);
            let was_raised = self.raised.remove(index);
            if was_raised {
                let g = self.generations[index as usize];
                let b = gen_bump(g);
                self.generations.set(index as usize, b);
            }
            proof {
                let prev = snap_kill_prefix(s0, d, p as int);
                assert(s_removed.alive =~= prev.alive.remove(index));
                assert(s_removed.killed =~= prev.killed.remove(index));
                assert(s_removed.raised =~= prev.raised);
                assert(s_removed == (EntitiesSnap {
                    alive: prev.alive.remove(index),
                    killed: prev.killed.remove(index),
                    ..prev
                }));
                assert(self@.raised =~= snap_kill_one(prev, d[p as int]).raised);
                assert(self@.generations =~= snap_kill_one(prev, d[p as int]).generations);
                assert(self@.alive =~= snap_kill_one(prev, d[p as int]).alive);
                assert(self@.killed =~= snap_kill_one(prev, d[p as int]).killed);
                assert(self@ == snap_kill_one(prev, d[p as int]));
                assert(self@ == snap_kill_prefix(s0, d, p as int + 1));
            }
            p = p + 1;
            proof {
                assert forall|q: int|
                    0 <= q < p implies snap_is_alive(snap_kill_prefix(s0, d, q), #[trigger] d[q])
                    by {}
            }
        }
        let mut indices: Vec<Index> = Vec::new();
        let mut k: usize = 0;
        while k < delete.len()
            invariant
                k <= d.len(),
                delete@ == d,
                indices@.len() == k,
                forall|t: int| 0 <= t < k ==> #[trigger] indices@[t] == d[t].index,
            decreases d.len() - k,
        {
            indices.push(delete[k].index());
            k = k + 1;
        }
        proof {
            assert(indices@ =~= d.map(|q: int, e: Entity| e.index));
        }
        let ghost before_extend = self@;
        self.cache_extend(&indices);
        proof {
            assert(self@ == (EntitiesSnap {
                cache: before_extend.cache + d.map(|q: int, e: Entity| e.index),
                ..before_extend
            }));
        }
        Ok(())
    }

    /// Apply every buffered raise: bump the generation of each raised
    /// index and mark it alive, then clear the raise buffer.
    #[verifier::rlimit(50)]
    fn apply_raises(&mut self)
        requires
            old(self).wf(),
            old(self)@.generations.len() > old(self)@.max_index as int + 1,
        ensures
            final(self).wf(),
            final(self)@ == (EntitiesSnap {
                alive: Set::new(
                    |j: Index| old(self)@.alive.contains(j) || old(self)@.raised.contains(j),
                ),
                raised: Set::<Index>::empty(),
                generations: Seq::new(
                    old(self)@.generations.len() as nat,
                    |k: int|
                        if 0 <= k <= old(self)@.max_index as int && old(self)@.raised.contains(
                            k as Index,
                        ) {
                            bump(old(self)@.generations[k])
                        } else {
                            old(self)@.generations[k]
                        },
                ),
                ..old(self)@
            }),
    {
        let ghost s = self@;
        let ghost max_index = self.max_index;
        let raised_list = self.raised.iter_indices();
        proof {
            assert forall|t: int| 0 <= t < raised_list@.len() implies (
            #[trigger] raised_list@[t]) <= max_index by {
                assert(raised_list@.contains(raised_list@[t]));
            }
        }
        let mut t: usize = 0;
        while t < raised_list.len()
            invariant
                t <= raised_list@.len(),
                self.alive.wf(),
                self.raised.wf(),
                max_index == s.max_index,
                forall|p: int, q: int|
                    0 <= p < q < raised_list@.len() ==> raised_list@[p] < raised_list@[q],
                forall|j: Index| raised_list@.contains(j) == s.raised.contains(j),
                forall|p: int|
                    0 <= p < raised_list@.len() ==> (#[trigger] raised_list@[p]) <= max_index,
                self.raised == old(self).raised,
                self.killed == old(self).killed,
                self.cache == old(self).cache,
                self.max_index == old(self).max_index,
                self.generations@.len() == s.generations.len(),
                s.generations.len() > max_index as int + 1,
                forall|k: int|
                    #![trigger self.generations@[k]]
                    0 <= k < s.generations.len() ==> self.generations@[k] == (
                    if 0 <= k <= u32::MAX && listed_before(raised_list@, t as int, k as Index) {
                        bump(s.generations[k])
                    } else {
                        s.generations[k]
                    }),
                forall|j: Index|
                    #![trigger self.alive.has(j)]
                    self.alive.has(j) == (s.alive.contains(j) || listed_before(
                        raised_list@,
                        t as int,
                        j,
                    )),
                forall|j: Index|
                    self.alive.has(j) ==> (j as int) < s.generations.len() && j <= max_index,
            decreases raised_list@.len() - t,
        {
            let index = raised_list[t];
            proof {
                assert(raised_list@[t as int] == index);
            }
            let ghost t0 = t as int;
            let ghost alive0 = self.alive;
            let ghost gens0 = self.generations@;
            let g = gen_bump(self.generations[index as usize]);
            self.generations.set(index as usize, g);
            self.alive.add(index);
            t = t + 1;
            proof {
                assert(t as int == t0 + 1);
                assert(raised_list@[t0] == index);
                assert forall|j: Index|
                    #![trigger self.alive.has(j)]
                    self.alive.has(j) == (s.alive.contains(j) || listed_before(
                        raised_list@,
                        t as int,
                        j,
                    )) by {
                    assert(alive0.has(j) == (s.alive.contains(j) || listed_before(
                        raised_list@,
                        t0,
                        j,
                    )));
                    assert(self.alive.has(j) == (alive0.has(j) || j == index));
                    if j == index {
                        assert(listed_before(raised_list@, t as int, j));
                    } else {
                        if listed_before(raised_list@, t as int, j) {
                            let p = choose|p: int| 0 <= p < t && raised_list@[p] == j;
                            assert(p != t0);
                            assert(listed_before(raised_list@, t0, j));
                        }
                        if listed_before(raised_list@, t0, j) {
                            let p = choose|p: int| 0 <= p < t0 && raised_list@[p] == j;
                            assert(0 <= p < t as int);
                            assert(listed_before(raised_list@, t as int, j));
                        }
                    }
                }
                assert forall|k: int|
                    #![trigger self.generations@[k]]
                    0 <= k < s.generations.len() implies self.generations@[k] == (if 0 <= k
                    <= u32::MAX && listed_before(raised_list@, t as int, k as Index) {
                    bump(s.generations[k])
                } else {
                    s.generations[k]
                }) by {
                    assert(gens0[k] == (if 0 <= k <= u32::MAX && listed_before(
                        raised_list@,
                        t0,
                        k as Index,
                    ) {
                        bump(s.generations[k])
                    } else {
                        s.generations[k]
                    }));
                    if k == index as int {
                        assert(listed_before(raised_list@, t as int, k as Index));
                        assert(!listed_before(raised_list@, t0, k as Index)) by {
                            if listed_before(raised_list@, t0, k as Index) {
                                let p = choose|p: int|
                                    0 <= p < t0 && raised_list@[p] == k as Index;
                                assert(raised_list@[p] < raised_list@[t0]);
                            }
                        }
                        assert(self.generations@[k] == bump(s.generations[k]));
                    } else {
                        if 0 <= k <= u32::MAX {
                            if listed_before(raised_list@, t as int, k as Index) {
                                let p = choose|p: int|
                                    0 <= p < t && raised_list@[p] == k as Index;
                                assert(p != t0);
                                assert(listed_before(raised_list@, t0, k as Index));
                            }
                            if listed_before(raised_list@, t0, k as Index) {
                                let p = choose|p: int|
                                    0 <= p < t0 && raised_list@[p] == k as Index;
                                assert(0 <= p < t as int);
                                assert(listed_before(raised_list@, t as int, k as Index));
                            }
                        }
                        assert(self.generations@[k] == gens0[k]);
                    }
                }
            }
        }
        self.raised.clear();
        proof {
            assert forall|k: int|
                0 <= k < s.generations.len() implies self.generations@[k] == (if 0 <= k
                <= s.max_index as int && s.raised.contains(k as Index) {
                bump(s.generations[k])
            } else {
                s.generations[k]
            }) by {
                if 0 <= k <= u32::MAX {
                    assert(listed_before(raised_list@, raised_list@.len() as int, k as Index)
                        == s.raised.contains(k as Index)) by {
                        if listed_before(raised_list@, raised_list@.len() as int, k as Index) {
                            let p = choose|p: int|
                                0 <= p < raised_list@.len() && raised_list@[p] == k as Index;
                            assert(raised_list@.contains(k as Index));
                        }
                        if s.raised.contains(k as Index) {
                            assert(raised_list@.contains(k as Index));
                            let p = choose|p: int|
                                0 <= p < raised_list@.len() && raised_list@[p] == k as Index;
                            assert(listed_before(
                                raised_list@,
                                raised_list@.len() as int,
                                k as Index,
                            ));
                        }
                    }
                    if s.raised.contains(k as Index) {
                        assert(k <= max_index as int);
                    }
                }
            }
            assert(self@.generations =~= Seq::new(
                s.generations.len() as nat,
                |k: int|
                    if 0 <= k <= s.max_index as int && s.raised.contains(k as Index) {
                        bump(s.generations[k])
                    } else {
                        s.generations[k]
                    },
            ));
            assert(self@.raised =~= Set::<Index>::empty());
            assert forall|j: Index|
                self@.alive.contains(j) == (s.alive.contains(j) || s.raised.contains(j)) by {
                assert(listed_before(raised_list@, raised_list@.len() as int, j)
                    == s.raised.contains(j)) by {
                    if listed_before(raised_list@, raised_list@.len() as int, j) {
                        let p = choose|p: int|
                            0 <= p < raised_list@.len() && raised_list@[p] == j;
                        assert(raised_list@.contains(j));
                    }
                    if s.raised.contains(j) {
                        assert(raised_list@.contains(j));
                        let p = choose|p: int|
                            0 <= p < raised_list@.len() && raised_list@[p] == j;
                        assert(listed_before(raised_list@, raised_list@.len() as int, j));
                    }
                }
            }
            assert(self@.alive =~= Set::new(
                |j: Index| s.alive.contains(j) || s.raised.contains(j),
            ));
            assert(self@.killed =~= s.killed);
        }
    }

    /// Apply every buffered kill: mark each killed index dead, collect
    /// the removed entities in ascending index order, and clear the kill
    /// buffer.
    #[verifier::rlimit(50)]
    fn apply_kills(&mut self) -> (deleted: Vec<Entity>)
        requires
            old(self).wf(),
            old(self)@.generations.len() > old(self)@.max_index as int + 1,
        ensures
            final(self).wf(),
            forall|t: int, u: int|
                0 <= t < u < deleted@.len() ==> deleted@[t].index < deleted@[u].index,
            forall|t: int|
                0 <= t < deleted@.len() ==> old(self)@.killed.contains(
                    (#[trigger] deleted@[t]).index,
                ) && deleted@[t].generation == old(self)@.generations[deleted@[t].index as int]
                    && deleted@[t].index <= old(self)@.max_index,
            forall|j: Index|
                old(self)@.killed.contains(j) ==> exists|t: int|
                    0 <= t < deleted@.len() && (#[trigger] deleted@[t]).index == j,
            deleted@.len() <= old(self)@.max_index + 1,
            final(self)@ == (EntitiesSnap {
                alive: Set::new(
                    |j: Index|
                        old(self)@.alive.contains(j) && !old(self)@.killed.contains(j),
                ),
                killed: Set::<Index>::empty(),
                ..old(self)@
            }),
    {
        let ghost s = self@;
        let ghost max_index = self.max_index;
        let killed_list = self.killed.iter_indices();
        proof {
            assert forall|p: int| 0 <= p < killed_list@.len() implies (
            #[trigger] killed_list@[p]) <= max_index by {
                assert(killed_list@.contains(killed_list@[p]));
            }
            lemma_ascending_len_bound(killed_list@, max_index);
        }
        let mut deleted: Vec<Entity> = Vec::new();
        let mut t: usize = 0;
        while t < killed_list.len()
            invariant
                t <= killed_list@.len(),
                self.alive.wf(),
                max_index == s.max_index,
                forall|p: int, q: int|
                    0 <= p < q < killed_list@.len() ==> killed_list@[p] < killed_list@[q],
                forall|j: Index| killed_list@.contains(j) == s.killed.contains(j),
                forall|p: int|
                    0 <= p < killed_list@.len() ==> (#[trigger] killed_list@[p]) <= max_index,
                self.raised == old(self).raised,
                self.killed == old(self).killed,
                self.cache == old(self).cache,
                self.max_index == old(self).max_index,
                self.generations@ == s.generations,
                s.generations.len() > max_index as int + 1,
                deleted@.len() == t,
                forall|p: int|
                    0 <= p < t ==> #[trigger] deleted@[p] == (Entity {
                        index: killed_list@[p],
                        generation: s.generations[killed_list@[p] as int],
                    }),
                forall|j: Index|
                    #![trigger self.alive.has(j)]
                    self.alive.has(j) == (s.alive.contains(j) && !listed_before(
                        killed_list@,
                        t as int,
                        j,
                    )),
                forall|j: Index|
                    self.alive.has(j) ==> (j as int) < s.generations.len() && j <= max_index,
            decreases killed_list@.len() - t,
        {
            let index = killed_list[t];
            let ghost t0 = t as int;
            let ghost alive0 = self.alive;
            self.alive.remove(index);
            deleted.push(Entity::from_parts(index, self.generations[index as usize]));
            t = t + 1;
            proof {
                assert(t as int == t0 + 1);
                assert(killed_list@[t0] == index);
                assert forall|j: Index|
                    #![trigger self.alive.has(j)]
                    self.alive.has(j) == (s.alive.contains(j) && !listed_before(
                        killed_list@,
                        t as int,
                        j,
                    )) by {
                    assert(alive0.has(j) == (s.alive.contains(j) && !listed_before(
                        killed_list@,
                        t0,
                        j,
                    )));
                    assert(self.alive.has(j) == (alive0.has(j) && j != index));
                    if j == index {
                        assert(listed_before(killed_list@, t as int, j));
                    } else {
                        if listed_before(killed_list@, t as int, j) {
                            let p = choose|p: int| 0 <= p < t && killed_list@[p] == j;
                            assert(p != t0);
                            assert(listed_before(killed_list@, t0, j));
                        }
                        if listed_before(killed_list@, t0, j) {
                            let p = choose|p: int| 0 <= p < t0 && killed_list@[p] == j;
                            assert(0 <= p < t as int);
                            assert(listed_before(killed_list@, t as int, j));
                        }
                    }
                }
            }
        }
        self.killed.clear();
        proof {
            assert(self@.killed =~= Set::<Index>::empty());
            assert forall|j: Index|
                self@.alive.contains(j) == (s.alive.contains(j) && !s.killed.contains(j)) by {
                assert(listed_before(killed_list@, killed_list@.len() as int, j)
                    == s.killed.contains(j)) by {
                    if listed_before(killed_list@, killed_list@.len() as int, j) {
                        let p = choose|p: int|
                            0 <= p < killed_list@.len() && killed_list@[p] == j;
                        assert(killed_list@.contains(j));
                    }
                    if s.killed.contains(j) {
                        assert(killed_list@.contains(j));
                        let p = choose|p: int|
                            0 <= p < killed_list@.len() && killed_list@[p] == j;
                        assert(listed_before(killed_list@, killed_list@.len() as int, j));
                    }
                }
            }
            assert(self@.alive =~= Set::new(
                |j: Index| s.alive.contains(j) && !s.killed.contains(j),
            ));
            assert(self@.raised =~= s.raised);
            assert forall|t2: int| 0 <= t2 < deleted@.len() implies s.killed.contains(
                (#[trigger] deleted@[t2]).index,
            ) && deleted@[t2].generation == s.generations[deleted@[t2].index as int]
                && deleted@[t2].index <= s.max_index by {
                assert(killed_list@.contains(killed_list@[t2]));
            }
            assert forall|j: Index| s.killed.contains(j) implies exists|t2: int|
                0 <= t2 < deleted@.len() && (#[trigger] deleted@[t2]).index == j by {
                assert(killed_list@.contains(j));
                let p = choose|p: int|
                    0 <= p < killed_list@.len() && killed_list@[p] == j;
                assert(deleted@[p].index == j);
            }
        }
        deleted
    }

    /// Maintains the registry: applies every buffered raise (bump the
    /// generation, mark alive) and every buffered kill (mark dead),
    /// clears both buffers, recycles the killed indices, and returns the
    /// removed entities for downstream storage cleanup, in ascending
    /// index order.
    pub fn maintain(&mut self) -> (deleted: Vec<Entity>)
        requires
            old(self).wf(),
            old(self)@.max_index < u32::MAX,
            old(self)@.cache.len() + old(self)@.max_index + 1 < u32::MAX,
        ensures
            final(self).wf(),
            ({
                let s = old(self)@;
                let gens = snap_maintain_generations(s);
                &&& forall|t: int, u: int|
                    0 <= t < u < deleted@.len() ==> deleted@[t].index < deleted@[u].index
                &&& forall|t: int|
                    0 <= t < deleted@.len() ==> s.killed.contains(
                        (#[trigger] deleted@[t]).index,
                    ) && deleted@[t].generation == gens[deleted@[t].index as int]
                &&& forall|j: Index|
                    s.killed.contains(j) ==> exists|t: int|
                        0 <= t < deleted@.len() && (#[trigger] deleted@[t]).index == j
                &&& final(self)@ == (EntitiesSnap {
                    alive: Set::new(
                        |j: Index|
                            (s.alive.contains(j) || s.raised.contains(j)) && !s.killed.contains(
                                j,
                            ),
                    ),
                    raised: Set::<Index>::empty(),
                    killed: Set::<Index>::empty(),
                    generations: gens,
                    cache: s.cache + deleted@.map(|t: int, e: Entity| e.index),
                    max_index: s.max_index,
                })
            }),
    {
        let ghost s = self@;
        let max_index = self.max_index;
        self.update_generations(max_index as usize + 1);
        let ghost s2 = self@;
        proof {
            assert(s2.generations =~= Seq::new(
                snap_maintain_generations(s).len(),
                |k: int|
                    if k < s.generations.len() {
                        s.generations[k]
                    } else {
                        0u32
                    },
            ));
        }
        self.apply_raises();
        let ghost s3 = self@;
        proof {
            assert(s3.generations =~= snap_maintain_generations(s));
        }
        let deleted = self.apply_kills();
        let mut indices: Vec<Index> = Vec::new();
        let mut k: usize = 0;
        while k < deleted.len()
            invariant
                k <= deleted@.len(),
                indices@.len() == k,
                forall|t: int| 0 <= t < k ==> #[trigger] indices@[t] == deleted@[t].index,
            decreases deleted@.len() - k,
        {
            indices.push(deleted[k].index());
            k = k + 1;
        }
        proof {
            assert(indices@ =~= deleted@.map(|t: int, e: Entity| e.index));
        }
        self.cache_extend(&indices);
        proof {
            assert(self@.alive =~= Set::new(
                |j: Index|
                    (s.alive.contains(j) || s.raised.contains(j)) && !s.killed.contains(j),
            ));
        }
        deleted
    }

    /// Extend the free-index cache, preserving the rest of the state.
    fn cache_extend(&mut self, indices: &Vec<Index>)
        requires
            old(self).wf(),
            old(self)@.cache.len() + indices@.len() < u32::MAX,
            forall|t: int|
                0 <= t < indices@.len() ==> (#[trigger] indices@[t]) <= old(self).max_index,
        ensures
            final(self).wf(),
            final(self)@ == (EntitiesSnap {
                cache: old(self)@.cache + indices@,
                ..old(self)@
            }),
    {
        self.cache.extend(indices);
        proof {
            assert(self@.alive =~= old(self)@.alive);
            assert(self@.raised =~= old(self)@.raised);
            assert(self@.killed =~= old(self)@.killed);
            assert(self@ == (EntitiesSnap { cache: old(self)@.cache + indices@, ..old(self)@ }));
        }
    }
}

/// A strictly ascending list of indices bounded by `m` has at most
/// `m + 1` entries.
proof fn lemma_ascending_len_bound(v: Seq<Index>, m: Index)
    requires
        forall|p: int, q: int| 0 <= p < q < v.len() ==> v[p] < v[q],
        forall|p: int| 0 <= p < v.len() ==> (#[trigger] v[p]) <= m,
    ensures
        v.len() <= m + 1,
{
    if v.len() > 0 {
        lemma_ascending_ge(v, v.len() as int - 1);
    }
}

/// In a strictly ascending list, the entry at position `p` is at least
/// `p`.
proof fn lemma_ascending_ge(v: Seq<Index>, p: int)
    requires
        forall|t: int, q: int| 0 <= t < q < v.len() ==> v[t] < v[q],
        0 <= p < v.len(),
    ensures
        v[p] >= p,
    decreases p,
{
    if p > 0 {
        lemma_ascending_ge(v, p - 1);
    }
}

/// The next generation, wrapping on overflow.
fn gen_bump(g: Generation) -> (r: Generation)
    ensures
        r == bump(g),
{
    if g == u32::MAX {
        0
    } else {
        g + 1
    }
}

/// A freshly allocated entity is alive in the new state, its slot's
/// stored generation rose by exactly one (wrapping), and no entity alive
/// beside it shares its index. The premises are the allocation effect as
/// [`Entities::allocate`] states it, on an index with no buffered raise.
pub proof fn lemma_allocate_unique(s: EntitiesSnap, t: EntitiesSnap, e: Entity, other: Entity)
    requires
        !s.raised.contains(e.index),
        t.raised == s.raised,
        t.alive == s.alive.insert(e.index),
        t.generations == snap_update_generations(s, e.index as int).generations.update(
            e.index as int,
            bump(snap_gen(s, e.index)),
        ),
        e.generation == bump(snap_gen(s, e.index)),
        snap_is_alive(t, other),
        other.index == e.index,
    ensures
        snap_is_alive(t, e),
        t.generations[e.index as int] == bump(snap_gen(s, e.index)),
        other == e,
{
    assert(snap_update_generations(s, e.index as int).generations.len() > e.index as int);
    assert(t.alive.contains(e.index));
    assert(snap_is_alive(t, e));
    lemma_live_unique(t, e, other);
}

/// Killing an entity and then reallocating its index yields a fresh
/// identity: the new entity carries the next generation, the old entity
/// reads dead, and the new one reads alive. The premises are the kill
/// effect ([`snap_kill_one`]) followed by the allocation effect as
/// [`Entities::allocate`] states it, on an index with no buffered raise.
pub proof fn lemma_kill_then_reallocate(
    s: EntitiesSnap,
    u: EntitiesSnap,
    e: Entity,
    a: Entity,
)
    requires
        !s.raised.contains(e.index),
        snap_is_alive(s, e),
        a.index == e.index,
        a.generation == bump(snap_gen(snap_kill_one(s, e), a.index)),
        u.raised == snap_kill_one(s, e).raised,
        u.alive == snap_kill_one(s, e).alive.insert(a.index),
        u.generations == snap_update_generations(
            snap_kill_one(s, e),
            a.index as int,
        ).generations.update(a.index as int, bump(snap_gen(snap_kill_one(s, e), a.index))),
    ensures
        a.generation == bump(e.generation),
        !snap_is_alive(u, e),
        snap_is_alive(u, a),
{
    let t = snap_kill_one(s, e);
    assert(snap_gen(t, e.index) == e.generation);
    assert(!u.raised.contains(e.index));
    assert(u.generations[e.index as int] == bump(e.generation));
    assert(bump(e.generation) != e.generation);
}

/// Generation uniqueness: no two entities that are alive at the same
/// time share an index, because liveness at an index pins the generation
/// to the single stored (or raised) one.
pub proof fn lemma_live_unique(s: EntitiesSnap, e1: Entity, e2: Entity)
    requires
        snap_is_alive(s, e1),
        snap_is_alive(s, e2),
        e1.index == e2.index,
    ensures
        e1 == e2,
{
}

} // verus!
