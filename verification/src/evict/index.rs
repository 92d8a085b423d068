//! Generational slot keys for the intrusive list: a slot index paired with a
//! generation counter, so a key left over from an earlier occupant of the
//! same slot is recognised as stale instead of resolving to the new one.
use vstd::prelude::*;

verus! {

/// A slot index inside a [`super::list::List`].
#[derive(Debug, Clone, Copy, PartialEq, Eq, Structural)]
pub struct Index(pub u32);

impl Index {
    /// The largest representable index.
    pub fn max() -> (r: Index)
        ensures
            r.0 == u32::MAX,
    {
        Index(u32::MAX)
    }

    pub fn into_usize(self) -> (r: usize)
        ensures
            r == self.0,
    {
        self.0 as usize
    }

    /// The index for a slot position, which must fit the index type.
    pub fn from_usize(index: usize) -> (r: Index)
        requires
            index <= u32::MAX,
        ensures
            r.0 == index,
    {
        Index(index as u32)
    }
}

/// A generation counter: never zero, bumped each time a slot is vacated, and
/// wrapping back to the minimum non-zero value on overflow.
#[derive(Debug, Clone, Copy, PartialEq, Eq, Structural)]
pub struct Generation(pub u32);

impl Generation {
    /// Whether this is a generation a live slot can carry.
    pub open spec fn valid(self) -> bool {
        self.0 >= 1
    }

    pub fn initial() -> (r: Generation)
        ensures
            r.0 == 1,
            r.valid(),
    {
        Generation(1)
    }

    /// The next generation, wrapping to the initial one on overflow.
    pub fn increment(self) -> (r: Generation)
        ensures
            r.valid(),
            self.0 < u32::MAX ==> r.0 == self.0 + 1,
            self.0 == u32::MAX ==> r.0 == 1,
    {
        if self.0 == u32::MAX {
            Generation(1)
        } else {
            Generation(self.0 + 1)
        }
    }

    pub fn increment_mut(&mut self)
        ensures
            final(self).valid(),
            old(self).0 < u32::MAX ==> final(self).0 == old(self).0 + 1,
            old(self).0 == u32::MAX ==> final(self).0 == 1,
    {
        *self = self.increment();
    }
}

/// A generational key: the slot index together with the generation the slot
/// held when the key was handed out.
#[derive(Debug, Clone, Copy, PartialEq, Eq, Structural)]
pub struct Key {
    pub index: Index,
    pub gen: Generation,
}

/// Packs a key into one word: the index in the low half, the generation in
/// the high half.
pub fn key_to_u64(key: Key) -> (r: u64)
    ensures
        r == key.index.0 + (key.gen.0 as u64) * 0x1_0000_0000,
{
    let r = (key.index.0 as u64) | ((key.gen.0 as u64) << 32);
    proof {
        let i = key.index.0 as u64;
        let g = key.gen.0 as u64;
        assert(i < 0x1_0000_0000 && g < 0x1_0000_0000 ==> (i | (g << 32)) == i + g
            * 0x1_0000_0000) by (bit_vector);
    }
    r
}

/// Unpacks a key packed by [`key_to_u64`].
pub fn u64_to_key(value: u64) -> (r: Key)
    ensures
        r.index.0 == value % 0x1_0000_0000,
        r.gen.0 == value / 0x1_0000_0000,
{
    let index = Index((value & 0xFFFF_FFFF) as u32);
    let gen = Generation((value >> 32) as u32);
    proof {
        assert((value & 0xFFFF_FFFF) == value % 0x1_0000_0000) by (bit_vector);
        assert((value >> 32) == value / 0x1_0000_0000) by (bit_vector);
    }
    Key { index, gen }
}

/// Packing a key and unpacking the result gives the key back.
pub proof fn lemma_key_u64_round_trip(key: Key)
    ensures
        ({
            let packed = key.index.0 + (key.gen.0 as u64) * 0x1_0000_0000;
            packed % 0x1_0000_0000 == key.index.0 && packed / 0x1_0000_0000 == key.gen.0
        }),
{
    let i = key.index.0 as u64;
    let g = key.gen.0 as u64;
    assert((i + g * 0x1_0000_0000) % 0x1_0000_0000 == i && (i + g * 0x1_0000_0000)
        / 0x1_0000_0000 == g) by (nonlinear_arith)
        requires
            i < 0x1_0000_0000 && g < 0x1_0000_0000,
    ;
}

/// A mutable cell holding a [`Key`], stored packed. Relocating collections
/// keep one per element and rewrite it when the element moves; all mutation
/// happens under the owning shard's exclusive borrow.
#[derive(Debug, Clone, Copy, PartialEq, Eq, Structural)]
pub struct AtomicKey {
    pub packed: u64,
}

impl AtomicKey {
    pub open spec fn spec_key(self) -> Key {
        Key {
            index: Index((self.packed % 0x1_0000_0000) as u32),
            gen: Generation((self.packed / 0x1_0000_0000) as u32),
        }
    }

    pub fn new(key: Key) -> (r: AtomicKey)
        ensures
            r.spec_key() == key,
    {
        let packed = key_to_u64(key);
        proof {
            lemma_key_u64_round_trip(key);
        }
        AtomicKey { packed }
    }

    /// The key through an exclusive borrow.
    pub fn get(&mut self) -> (r: Key)
        ensures
            r == old(self).spec_key(),
            *final(self) == *old(self),
    {
        u64_to_key(self.packed)
    }

    /// The key through a shared borrow.
    pub fn load(&self) -> (r: Key)
        ensures
            r == self.spec_key(),
    {
        u64_to_key(self.packed)
    }

    pub fn store(&mut self, key: Key)
        ensures
            final(self).spec_key() == key,
    {
        let packed = key_to_u64(key);
        proof {
            lemma_key_u64_round_trip(key);
        }
        self.packed = packed;
    }
}

} // verus!
