use vstd::prelude::*;

verus! {

/// Index (slot number) of an entity.
pub type Index = u32;

/// Generation counter of an entity.
pub type Generation = u32;

/// An opaque identifier composed of a slot `index` and a `generation`
/// counter. Two entities are equal iff both fields match. Liveness is
/// determined by the entity registry, not by the identifier itself.
#[derive(Clone, Copy, Debug, Hash, PartialEq, Eq, Structural)]
pub struct Entity {
    pub index: Index,
    pub generation: Generation,
}

impl Entity {
    /// The packed 64-bit form of this entity: the index in the low half,
    /// the generation in the high half.
    pub open spec fn id_spec(&self) -> u64 {
        (self.index as u64) | ((self.generation as u64) << 32)
    }

    /// Create a new entity from its packed 64-bit id.
    pub fn from_id(id: u64) -> (e: Entity)
        ensures
            e.index == id as u32,
            e.generation == (id >> 32) as u32,
            e.id_spec() == id,
    {
        let e = Entity { index: id as u32, generation: (id >> 32) as u32 };
        proof {
            assert(((id as u32) as u64) | ((((id >> 32) as u32) as u64) << 32) == id)
                by (bit_vector);
        }
        e
    }

    /// Create a new entity from the given index and generation.
    pub fn from_parts(index: Index, generation: Generation) -> (e: Entity)
        ensures
            e.index == index,
            e.generation == generation,
    {
        Entity { index, generation }
    }

    /// The packed 64-bit id of the entity.
    #[inline]
    pub fn id(&self) -> (id: u64)
        ensures
            id == self.id_spec(),
    {
        (self.index as u64) | ((self.generation as u64) << 32)
    }

    /// The index of the entity.
    #[inline]
    pub fn index(&self) -> (i: Index)
        ensures
            i == self.index,
    {
        self.index
    }

    /// The generation of the entity.
    #[inline]
    pub fn generation(&self) -> (g: Generation)
        ensures
            g == self.generation,
    {
        self.generation
    }
}

/// The packed id determines the entity: equal ids mean equal entities, so
/// hashing and equality may be defined on either form interchangeably.
pub proof fn lemma_id_injective(a: Entity, b: Entity)
    requires
        a.id_spec() == b.id_spec(),
    ensures
        a == b,
{
    let (ai, ag, bi, bg) = (a.index, a.generation, b.index, b.generation);
    assert((ai as u64) | ((ag as u64) << 32) == (bi as u64) | ((bg as u64) << 32)
        ==> ai == bi && ag == bg) by (bit_vector);
}

} // verus!
