use vstd::prelude::*;

verus! {

/// The base of the high half of an entity's bit pattern.
pub const HIGH_HALF: u64 = 0x1_0000_0000;

/// An opaque identity of an entity in a live store: an arena index plus a
/// generation, so that a freed and reused slot never aliases a stale handle.
#[derive(Clone, Copy, Debug, PartialEq, Eq, Structural, Hash)]
pub struct Entity {
    pub index: u32,
    pub generation: u32,
}

impl Entity {
    /// The bit pattern of an entity: generation in the high half, index in the low.
    pub open spec fn spec_bits(self) -> u64 {
        (self.generation as u64 * HIGH_HALF + self.index as u64) as u64
    }

    /// The entity whose bit pattern is `bits`.
    pub open spec fn spec_from_bits(bits: u64) -> Entity {
        Entity { index: (bits % HIGH_HALF) as u32, generation: (bits / HIGH_HALF) as u32 }
    }

    /// The sentinel that an unresolved reference points at after a load.
    pub open spec fn spec_placeholder() -> Entity {
        Entity { index: u32::MAX, generation: 0 }
    }

    pub fn placeholder() -> (r: Entity)
        ensures
            r == Entity::spec_placeholder(),
    {
        Entity { index: u32::MAX, generation: 0 }
    }

    pub fn new(index: u32, generation: u32) -> (r: Entity)
        ensures
            r.index == index,
            r.generation == generation,
    {
        Entity { index, generation }
    }

    pub fn to_bits(&self) -> (r: u64)
        ensures
            r == self.spec_bits(),
    {
        assert(self.generation as u64 * HIGH_HALF + self.index as u64 <= u64::MAX) by (nonlinear_arith)
            requires
                self.generation <= u32::MAX,
                self.index <= u32::MAX,
        ;
        self.generation as u64 * HIGH_HALF + self.index as u64
    }

    pub fn from_bits(bits: u64) -> (r: Entity)
        ensures
            r == Entity::spec_from_bits(bits),
            r.spec_bits() == bits,
    {
        let generation = (bits / HIGH_HALF) as u32;
        let index = (bits % HIGH_HALF) as u32;
        assert(bits == (bits / HIGH_HALF) * HIGH_HALF + bits % HIGH_HALF) by (nonlinear_arith);
        assert(bits / HIGH_HALF <= u32::MAX) by (nonlinear_arith)
            requires
                bits <= u64::MAX,
        ;
        Entity { index, generation }
    }
}

/// Reading back the bit pattern of an entity gives the entity.
pub proof fn lemma_bits_round_trip(e: Entity)
    ensures
        Entity::spec_from_bits(e.spec_bits()) == e,
{
    let x = e.spec_bits();
    assert(x == e.generation as u64 * HIGH_HALF + e.index as u64) by (nonlinear_arith)
        requires
            x == (e.generation as u64 * HIGH_HALF + e.index as u64) as u64,
            e.generation <= u32::MAX,
            e.index <= u32::MAX,
    ;
    assert(x % HIGH_HALF == e.index as u64 && x / HIGH_HALF == e.generation as u64) by (nonlinear_arith)
        requires
            x == e.generation as u64 * HIGH_HALF + e.index as u64,
            e.index < HIGH_HALF,
    ;
}

} // verus!
