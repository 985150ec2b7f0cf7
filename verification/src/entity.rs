//! Opaque entity identifiers.

use vstd::prelude::*;

verus! {

/// Relies on uuid::Uuid::new_v4: a freshly generated random 128-bit
/// identifier. The low 64 bits serve as the entity id; nothing is promised
/// of the result, since it depends on the generator's randomness.
#[verifier::external_body]
fn next_id() -> u64 {
    uuid::Uuid::new_v4().as_u64_pair().0
}

/// An opaque identifier denoting one simulated object; it carries no data
/// itself. Equality and hashing go by the id alone.
#[derive(Debug, Hash, Copy, Clone, PartialEq, Eq, Structural)]
pub struct Entity {
    pub id: u64,
}

impl Entity {
    /// Creates an entity with a freshly generated identifier. Uniqueness is
    /// probabilistic, owed to the id generator, and is not promised here.
    pub fn new() -> Entity {
        Entity { id: next_id() }
    }
}

} // verus!
