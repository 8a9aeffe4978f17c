use vstd::prelude::*;

verus! {

/// The kind of a collidable entity.
#[derive(Clone, Copy, Debug, PartialEq, Eq, Structural)]
pub enum CollisionMask {
    Players,
    Enemies,
}

impl CollisionMask {
    /// The single bit that stands for this kind in a `MaskSet`.
    pub open spec fn spec_bit(self) -> u8 {
        match self {
            CollisionMask::Players => 1u8,
            CollisionMask::Enemies => 2u8,
        }
    }

    pub fn bit(self) -> (r: u8)
        ensures
            r == self.spec_bit(),
    {
        match self {
            CollisionMask::Players => 1u8,
            CollisionMask::Enemies => 2u8,
        }
    }
}

/// A set of collision kinds, stored as a bit mask.
#[derive(Clone, Copy, Debug, PartialEq, Eq, Structural)]
pub struct MaskSet {
    bits: u8,
}

proof fn lemma_bits()
    ensures
        forall|m: CollisionMask, n: CollisionMask|
            (#[trigger] (m.spec_bit() & n.spec_bit()) != 0) <==> m == n,
        forall|m: CollisionMask| (0u8 & #[trigger] m.spec_bit()) == 0,
        forall|a: u8, b: u8, c: u8| (#[trigger] ((a | b) & c) != 0) <==> ((a & c) != 0 || (b & c) != 0),
{
    assert(1u8 & 1u8 == 1u8) by (bit_vector);
    assert(1u8 & 2u8 == 0u8) by (bit_vector);
    assert(2u8 & 1u8 == 0u8) by (bit_vector);
    assert(2u8 & 2u8 == 2u8) by (bit_vector);
    assert(0u8 & 1u8 == 0u8) by (bit_vector);
    assert(0u8 & 2u8 == 0u8) by (bit_vector);
    assert forall|a: u8, b: u8, c: u8| (#[trigger] ((a | b) & c) != 0) <==> ((a & c) != 0 || (b & c) != 0) by {
        assert(((a | b) & c) != 0 <==> ((a & c) != 0 || (b & c) != 0)) by (bit_vector);
    }
}

impl MaskSet {
    /// The kinds that belong to the set.
    pub closed spec fn view(self) -> Set<CollisionMask> {
        Set::new(|m: CollisionMask| (self.bits & m.spec_bit()) != 0)
    }

    /// The set with no kind in it.
    pub fn empty() -> (r: MaskSet)
        ensures
            r@ == Set::<CollisionMask>::empty(),
    {
        proof {
            lemma_bits();
        }
        let r = MaskSet { bits: 0 };
        assert(r@ =~= Set::<CollisionMask>::empty());
        r
    }

    /// The set that holds `mask` alone.
    pub fn of(mask: CollisionMask) -> (r: MaskSet)
        ensures
            r@ == set![mask],
    {
        proof {
            lemma_bits();
        }
        let r = MaskSet { bits: mask.bit() };
        assert(r@ =~= set![mask]);
        r
    }

    /// This set with `mask` added.
    pub fn with(self, mask: CollisionMask) -> (r: MaskSet)
        ensures
            r@ == self@.insert(mask),
    {
        proof {
            lemma_bits();
        }
        let r = MaskSet { bits: self.bits | mask.bit() };
        assert(r@ =~= self@.insert(mask));
        r
    }

    /// Whether `mask` belongs to the set.
    pub fn contains(&self, mask: CollisionMask) -> (r: bool)
        ensures
            r == self@.contains(mask),
    {
        (self.bits & mask.bit()) != 0
    }
}

} // verus!
