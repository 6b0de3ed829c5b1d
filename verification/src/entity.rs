use vstd::prelude::*;

verus! {

/// Identifier of a replicated entity: a 32-bit index and a 32-bit generation.
///
/// The server's identifiers are opaque to the client; the pair is only
/// compared, mapped and carried over the wire.
#[derive(Clone, Copy, Debug, PartialEq, Eq, Structural, Hash)]
pub struct Entity {
    pub index: u32,
    pub generation: u32,
}

impl Entity {
    pub fn new(index: u32, generation: u32) -> (r: Entity)
        ensures
            r == (Entity { index, generation }),
    {
        Entity { index, generation }
    }

    /// Canonical 64-bit form: generation in the high half, index in the low.
    pub open spec fn spec_bits(self) -> u64 {
        (self.generation * 0x1_0000_0000 + self.index) as u64
    }

    /// Packs the identifier into its canonical 64-bit form.
    pub fn to_bits(self) -> (r: u64)
        ensures
            r == self.spec_bits(),
    {
        self.generation as u64 * 0x1_0000_0000 + self.index as u64
    }
}

/// Two entities with the same canonical 64-bit form are the same entity.
pub proof fn lemma_entity_bits_injective(a: Entity, b: Entity)
    requires
        a.spec_bits() == b.spec_bits(),
    ensures
        a == b,
{
    assert(a.generation == b.generation && a.index == b.index) by (nonlinear_arith)
        requires
            a.generation * 0x1_0000_0000 + a.index == b.generation * 0x1_0000_0000 + b.index,
            a.index < 0x1_0000_0000,
            b.index < 0x1_0000_0000,
    ;
}

} // verus!
