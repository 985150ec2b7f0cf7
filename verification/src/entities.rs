//! The set of currently-live entities.

use vstd::prelude::*;

use std::collections::HashSet;

use crate::entity::Entity;

verus! {

broadcast use vstd::std_specs::hash::group_hash_axioms;

/// The registry of live entities: create, remove, liveness check. Viewed as
/// the set of live entity ids.
pub struct Entities {
    entities: HashSet<u64>,
}

impl View for Entities {
    type V = Set<u64>;

    closed spec fn view(&self) -> Set<u64> {
        self.entities@
    }
}

impl Entities {
    /// An empty registry: no entity is alive.
    pub fn new() -> (r: Entities)
        ensures
            r@ == Set::<u64>::empty(),
    {
        Entities { entities: HashSet::new() }
    }

    /// Generates a fresh entity, marks it live and returns it. The returned
    /// entity is alive immediately afterwards.
    pub fn create(&mut self) -> (entity: Entity)
        ensures
            final(self)@ == old(self)@.insert(entity.id),
            final(self)@.contains(entity.id),
    {
        let entity = Entity::new();
        self.entities.insert(entity.id);
        entity
    }

    /// Removes the entity from the live set; returns whether it was present.
    /// It is not alive afterwards. Components attached to it are not touched:
    /// their removal is the caller's responsibility.
    pub fn remove(&mut self, entity: &Entity) -> (present: bool)
        ensures
            final(self)@ == old(self)@.remove(entity.id),
            present == old(self)@.contains(entity.id),
            !final(self)@.contains(entity.id),
    {
        self.entities.remove(&entity.id)
    }

    /// Pure liveness lookup.
    pub fn is_alive(&self, entity: &Entity) -> (alive: bool)
        ensures
            alive == self@.contains(entity.id),
    {
        self.entities.contains(&entity.id)
    }
}

/// An entity is alive immediately after its creation: `create` puts the
/// fresh id into the live set, where `is_alive` then finds it.
pub proof fn lemma_created_entity_alive(live: Set<u64>, id: u64)
    ensures
        live.insert(id).contains(id),
{
}

/// An entity is dead immediately after `remove` returns true: removal takes
/// the id out of the live set, where `is_alive` then misses it.
pub proof fn lemma_removed_entity_dead(live: Set<u64>, id: u64)
    ensures
        !live.remove(id).contains(id),
{
}

} // verus!
