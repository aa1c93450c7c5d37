//! Opaque handles that name bodies, colliders and joints.
use vstd::prelude::*;

verus! {

/// A slot index and a generation counter packed into one `u64`: the slot in
/// the low 32 bits, the generation in the high 32 bits.
pub open spec fn packed(slot: u32, generation: u32) -> u64 {
    ((generation as u64) << 32u64) | (slot as u64)
}

/// The slot index held in the low 32 bits of a packed value.
pub open spec fn packed_slot(bits: u64) -> u32 {
    bits as u32
}

/// The generation counter held in the high 32 bits of a packed value.
pub open spec fn packed_generation(bits: u64) -> u32 {
    (bits >> 32u64) as u32
}

/// Packing a slot and a generation and reading them back gives the same pair.
pub proof fn lemma_packed_roundtrip(slot: u32, generation: u32)
    ensures
        packed_slot(packed(slot, generation)) == slot,
        packed_generation(packed(slot, generation)) == generation,
{
    assert(((((generation as u64) << 32u64) | (slot as u64)) as u32) == slot) by (bit_vector);
    assert(((((generation as u64) << 32u64) | (slot as u64)) >> 32u64) as u32 == generation)
        by (bit_vector);
}

/// Two packed values are equal exactly when their slots and generations are.
pub proof fn lemma_packed_injective(s1: u32, g1: u32, s2: u32, g2: u32)
    ensures
        packed(s1, g1) == packed(s2, g2) <==> (s1 == s2 && g1 == g2),
{
    lemma_packed_roundtrip(s1, g1);
    lemma_packed_roundtrip(s2, g2);
}

/// Every packed value is the packing of its own slot and generation.
pub proof fn lemma_packed_complete(bits: u64)
    ensures
        packed(packed_slot(bits), packed_generation(bits)) == bits,
{
    assert(((((bits >> 32u64) as u32) as u64) << 32u64) | ((bits as u32) as u64) == bits)
        by (bit_vector);
}

/// Opaque handle to a rigid body: `(slot, generation)` packed into a `u64`.
#[derive(Debug, Clone, Copy, PartialEq, Eq, Structural, Hash)]
pub struct BodyHandle(pub u64);

impl BodyHandle {
    /// Packs `slot` and `generation` into a handle.
    pub fn new(slot: u32, generation: u32) -> (h: Self)
        ensures
            h.0 == packed(slot, generation),
            h.slot_spec() == slot,
            h.generation_spec() == generation,
    {
        proof {
            lemma_packed_roundtrip(slot, generation);
        }
        BodyHandle(((generation as u64) << 32u64) | (slot as u64))
    }

    /// The slot index of this handle.
    pub open spec fn slot_spec(&self) -> u32 {
        packed_slot(self.0)
    }

    /// The generation counter of this handle.
    pub open spec fn generation_spec(&self) -> u32 {
        packed_generation(self.0)
    }

    /// The slot index (the low 32 bits).
    pub fn slot(&self) -> (s: u32)
        ensures
            s == self.slot_spec(),
    {
        self.0 as u32
    }

    /// The generation counter (the high 32 bits).
    pub fn generation(&self) -> (g: u32)
        ensures
            g == self.generation_spec(),
    {
        (self.0 >> 32u64) as u32
    }

    /// A handle is valid unless it is the null handle.
    pub fn is_valid(&self) -> (b: bool)
        ensures
            b == (self.0 != u64::MAX),
    {
        self.0 != u64::MAX
    }

    /// The null handle, which names no body.
    pub fn null() -> (h: Self)
        ensures
            h.0 == u64::MAX,
    {
        BodyHandle(u64::MAX)
    }
}

impl Default for BodyHandle {
    /// The default handle is the null handle.
    fn default() -> (h: Self)
        ensures
            h.0 == u64::MAX,
    {
        Self::null()
    }
}

/// Opaque handle to a collider: its slot index.
#[derive(Debug, Clone, Copy, PartialEq, Eq, Structural, Hash, PartialOrd, Ord, Default)]
pub struct ColliderHandle(pub u32);

impl ColliderHandle {
    /// The handle of slot `slot` (the slot is truncated to 32 bits).
    pub fn from_slot(slot: usize) -> (h: Self)
        ensures
            h.0 == slot as u32,
            slot <= u32::MAX ==> h.0 == slot,
    {
        ColliderHandle(slot as u32)
    }

    /// The slot index of this handle.
    pub fn slot(&self) -> (s: usize)
        ensures
            s == self.0,
    {
        self.0 as usize
    }

    /// The null handle, which names no collider.
    pub fn null() -> (h: Self)
        ensures
            h.0 == u32::MAX,
    {
        ColliderHandle(u32::MAX)
    }

    /// Whether this is the null handle.
    pub fn is_null(&self) -> (b: bool)
        ensures
            b == (self.0 == u32::MAX),
    {
        self.0 == u32::MAX
    }
}

/// Opaque handle to a joint: `(slot, generation)` packed as in [`BodyHandle`].
#[derive(Debug, Clone, Copy, PartialEq, Eq, Structural, Hash)]
pub struct JointHandle(u64);

impl JointHandle {
    /// The packed bits of this handle.
    pub closed spec fn bits(&self) -> u64 {
        self.0
    }

    /// Packs `slot` and `generation` into a handle.
    pub fn new(slot: u32, generation: u32) -> (h: Self)
        ensures
            h.bits() == packed(slot, generation),
            packed_slot(h.bits()) == slot,
            packed_generation(h.bits()) == generation,
    {
        proof {
            lemma_packed_roundtrip(slot, generation);
        }
        JointHandle(((generation as u64) << 32u64) | (slot as u64))
    }

    /// The slot index (the low 32 bits).
    pub fn slot(&self) -> (s: u32)
        ensures
            s == packed_slot(self.bits()),
    {
        let bits = self.0;
        assert((bits & 0xFFFF_FFFFu64) as u32 == bits as u32) by (bit_vector);
        (bits & 0xFFFF_FFFFu64) as u32
    }

    /// The generation counter (the high 32 bits).
    pub fn generation(&self) -> (g: u32)
        ensures
            g == packed_generation(self.bits()),
    {
        (self.0 >> 32u64) as u32
    }
}

} // verus!
