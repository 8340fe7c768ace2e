//! Identities of nodes and the generators that hand them out.

use vstd::prelude::*;

verus! {

/// A value that can serve as the identity of a node.
pub trait UniqueId: Copy {

}

impl UniqueId for u64 {

}

/// A source of identities. A tree asks its generator for an identity
/// whenever it makes a node, and relies on it never to hand out one that is
/// still in use in that tree.
pub trait UniqueGenerator {
    type Output: UniqueId;

    /// What one call of `generate` does: whether this generator may hand out
    /// `id` and be left as `next`.
    spec fn issues(&self, id: Self::Output, next: &Self) -> bool;

    /// Generate a unique value.
    fn generate(&mut self) -> (id: Self::Output)
        ensures
            old(self).issues(id, final(self)),
    ;
}

/// Hands out the numbers `0, 1, 2, ...`, starting over after `u64::MAX`.
#[derive(Debug, Clone)]
pub struct AtomicU64Generator {
    pub(crate) next_id: u64,
}

impl AtomicU64Generator {
    /// The identity that the next call of `generate` returns.
    pub open(crate) spec fn upcoming(self) -> u64 {
        self.next_id
    }

    /// A generator that starts at zero.
    pub fn new() -> (g: Self)
        ensures
            g.upcoming() == 0,
    {
        AtomicU64Generator { next_id: 0 }
    }
}

impl Default for AtomicU64Generator {
    fn default() -> (g: Self)
        ensures
            g.upcoming() == 0,
    {
        AtomicU64Generator { next_id: 0 }
    }
}

impl UniqueGenerator for AtomicU64Generator {
    type Output = u64;

    /// The identity is the upcoming number, and the next one follows it.
    open spec fn issues(&self, id: u64, next: &Self) -> bool {
        &&& id == self.upcoming()
        &&& next.upcoming() == if self.upcoming() == u64::MAX {
            0
        } else {
            self.upcoming() + 1
        }
    }

    fn generate(&mut self) -> (id: u64)
        ensures
            id == old(self).upcoming(),
            final(self).upcoming() == if old(self).upcoming() == u64::MAX {
                0
            } else {
                old(self).upcoming() + 1
            },
    {
        let id: u64 = self.next_id;
        self.next_id = self.next_id.wrapping_add(1);
        id
    }
}

/// A universally unique identifier, held as its 128-bit value.
#[derive(Copy, Clone, Debug, Hash, PartialEq, Eq, PartialOrd, Ord, Structural)]
pub struct Uuid {
    pub value: u128,
}

impl UniqueId for Uuid {

}

/// The 128-bit value is laid out as a random (version 4) identifier: its
/// version field, the four bits from bit 76 up, reads 4, and its variant
/// field, the two bits from bit 62 up, reads `10`. The other 122 bits are
/// free.
pub open spec fn random_layout(value: u128) -> bool {
    value & 0x0000_0000_0000_f000_c000_0000_0000_0000u128
        == 0x0000_0000_0000_4000_8000_0000_0000_0000u128
}

impl Uuid {
    /// The identifier is a random (version 4) one.
    pub open spec fn is_random(self) -> bool {
        random_layout(self.value)
    }
}

/// Calls `uuid::Uuid::new_v4` and takes the value of the identifier with
/// `as_u128`. The identifier is random: the contract claims only what holds
/// of every identifier that `new_v4` makes, that its version and variant
/// fields are those of a version 4 identifier.
#[verifier::external_body]
fn random_uuid_value() -> (value: u128)
    ensures
        random_layout(value),
{
    uuid::Uuid::new_v4().as_u128()
}

/// Hands out random (version 4) identifiers.
#[derive(Default, Debug, Clone)]
pub struct UuidGenerator;

impl UniqueGenerator for UuidGenerator {
    type Output = Uuid;

    /// Any random identifier may come.
    open spec fn issues(&self, id: Uuid, next: &Self) -> bool {
        id.is_random()
    }

    fn generate(&mut self) -> (id: Uuid)
        ensures
            id.is_random(),
    {
        Uuid { value: random_uuid_value() }
    }
}

} // verus!
