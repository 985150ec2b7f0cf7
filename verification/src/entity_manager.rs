//! The context object handed to every process: the entity registry and the
//! component registry, owned together.

use vstd::prelude::*;

use crate::component::Component;
use crate::component_manager::ComponentManager;
use crate::components::committed_of;
use crate::components::Components;
use crate::entities::Entities;
use crate::entity::Entity;
use crate::error::UsageError;
use crate::cell::DoubleBufferedCell;

verus! {

/// Owns the set of live entities and the component stores. Processes
/// receive it by reference; the lock-based sharing the runtime needs sits
/// outside this verified core.
pub struct EntityManager<C: Component> {
    components: Components<C>,
    entities: Entities,
}

impl<C: Component> EntityManager<C> {
    /// The component registry.
    pub closed spec fn spec_components(&self) -> Components<C> {
        self.components
    }

    /// The entity registry.
    pub closed spec fn spec_entities(&self) -> Entities {
        self.entities
    }

    /// Well-formed: the component registry is.
    pub open spec fn wf(&self) -> bool {
        self.spec_components().wf()
    }

    /// An empty manager: no live entity, no registered component type.
    pub fn new() -> (manager: EntityManager<C>)
        ensures
            manager.wf(),
            manager.spec_entities()@ == Set::<u64>::empty(),
            manager.spec_components().spec_managers() == Map::<
                u64,
                crate::component_manager::WrappedComponentManager<C>,
            >::empty(),
    {
        EntityManager { components: Components::new(), entities: Entities::new() }
    }

    /// The component registry, read-only.
    pub fn components(&self) -> (components: &Components<C>)
        ensures
            *components == self.spec_components(),
    {
        &self.components
    }

    /// The component registry, writable; the entity registry is untouched,
    /// whatever the caller does through it.
    pub fn components_mut(&mut self) -> (components: &mut Components<C>)
        ensures
            *components == old(self).spec_components(),
            final(self).spec_components() == *final(components),
            final(self).spec_entities() == old(self).spec_entities(),
    {
        &mut self.components
    }

    /// The entity registry, read-only.
    pub fn entities(&self) -> (entities: &Entities)
        ensures
            *entities == self.spec_entities(),
    {
        &self.entities
    }

    /// The entity registry, writable; the component registry is untouched.
    pub fn entities_mut(&mut self) -> (entities: &mut Entities)
        ensures
            *entities == old(self).spec_entities(),
            final(self).spec_entities() == *final(entities),
            final(self).spec_components() == old(self).spec_components(),
    {
        &mut self.entities
    }

    /// Creates a fresh live entity; it is alive immediately afterwards.
    /// Components are untouched.
    pub fn create_entity(&mut self) -> (entity: Entity)
        ensures
            final(self).spec_entities()@ == old(self).spec_entities()@.insert(entity.id),
            final(self).spec_entities()@.contains(entity.id),
            final(self).spec_components() == old(self).spec_components(),
    {
        self.entities.create()
    }

    /// Removes the entity from the live set; returns whether it was
    /// present. Components attached to it are not touched: their removal is
    /// the caller's responsibility.
    pub fn remove_entity(&mut self, entity: &Entity) -> (present: bool)
        ensures
            final(self).spec_entities()@ == old(self).spec_entities()@.remove(entity.id),
            present == old(self).spec_entities()@.contains(entity.id),
            final(self).spec_components() == old(self).spec_components(),
    {
        self.entities.remove(entity)
    }

    /// Pure liveness lookup.
    pub fn is_entity_alive(&self, entity: &Entity) -> (alive: bool)
        ensures
            alive == self.spec_entities()@.contains(entity.id),
    {
        self.entities.is_alive(entity)
    }

    /// Registers a component-type key with a fresh, empty store;
    /// re-registering replaces the store, losing prior data.
    pub fn register_component(&mut self, key: u64)
        requires
            old(self).wf(),
        ensures
            final(self).wf(),
            final(self).spec_entities() == old(self).spec_entities(),
            final(self).spec_components().spec_managers().dom() == old(self).spec_components().spec_managers().dom().insert(key),
            final(self).spec_components().spec_managers()[key].cells() == Map::<
                u64,
                DoubleBufferedCell<C>,
            >::empty(),
            forall|k: u64| #![trigger final(self).spec_components().spec_managers()[k]]
                old(self).spec_components().spec_managers().contains_key(k) && k != key ==> final(self).spec_components().spec_managers()[k] == old(self).spec_components().spec_managers()[k],
    {
        self.components.register(key)
    }

    /// Unregisters a component-type key, dropping its store outright.
    pub fn unregister_component(&mut self, key: u64)
        requires
            old(self).wf(),
        ensures
            final(self).wf(),
            final(self).spec_entities() == old(self).spec_entities(),
            final(self).spec_components().spec_managers() == old(self).spec_components().spec_managers().remove(key),
    {
        self.components.unregister(key)
    }

    /// Attaches `component` to `entity` under the component-type key; on an
    /// unregistered key, the usage error, and nothing changes.
    pub fn insert_component(&mut self, key: u64, entity: Entity, component: C) -> (outcome: Result<
        (),
        UsageError,
    >)
        requires
            old(self).wf(),
        ensures
            final(self).wf(),
            final(self).spec_entities() == old(self).spec_entities(),
            match outcome {
                Ok(()) => {
                    &&& old(self).spec_components().spec_managers().contains_key(key)
                    &&& final(self).spec_components().spec_managers().dom() == old(self).spec_components().spec_managers().dom()
                    &&& final(self).spec_components().spec_managers()[key].cells() == old(self).spec_components().spec_managers()[key].cells().insert(
                        entity.id,
                        (DoubleBufferedCell { current: component, pending: None::<C> }),
                    )
                    &&& forall|k: u64|
                        #![trigger final(self).spec_components().spec_managers()[k]]
                        old(self).spec_components().spec_managers().contains_key(k) && k != key
                            ==> final(self).spec_components().spec_managers()[k] == old(self).spec_components().spec_managers()[k]
                },
                Err(e) => {
                    &&& e == UsageError::UnregisteredComponent
                    &&& !old(self).spec_components().spec_managers().contains_key(key)
                    &&& final(self).spec_components().spec_managers() == old(self).spec_components().spec_managers()
                },
            },
    {
        self.components.insert(key, entity, component)
    }

    /// Detaches the component under the component-type key from `entity`
    /// and returns its current value; a missing component is `None`, not an
    /// error. On an unregistered key, the usage error.
    pub fn remove_component(&mut self, key: u64, entity: &Entity) -> (outcome: Result<
        Option<C>,
        UsageError,
    >)
        requires
            old(self).wf(),
        ensures
            final(self).wf(),
            final(self).spec_entities() == old(self).spec_entities(),
            match outcome {
                Ok(removed) => {
                    &&& old(self).spec_components().spec_managers().contains_key(key)
                    &&& final(self).spec_components().spec_managers().dom() == old(self).spec_components().spec_managers().dom()
                    &&& final(self).spec_components().spec_managers()[key].cells() == old(self).spec_components().spec_managers()[key].cells().remove(entity.id)
                    &&& match removed {
                        Some(c) => old(self).spec_components().spec_managers()[key].cells()
                            .contains_key(entity.id) && c == old(self).spec_components().spec_managers()[key].cells()[entity.id].current,
                        None => !old(self).spec_components().spec_managers()[key].cells()
                            .contains_key(entity.id),
                    }
                },
                Err(e) => {
                    &&& e == UsageError::UnregisteredComponent
                    &&& !old(self).spec_components().spec_managers().contains_key(key)
                    &&& final(self).spec_components().spec_managers() == old(self).spec_components().spec_managers()
                },
            },
    {
        self.components.remove(key, entity)
    }

    /// The tick-boundary pass: commits every cell of every registered
    /// store, making this tick's staged writes the next tick's current
    /// reads. Entities and registered keys are untouched.
    pub fn update(&mut self)
        requires
            old(self).wf(),
        ensures
            final(self).wf(),
            final(self).spec_entities() == old(self).spec_entities(),
            final(self).spec_components().spec_managers().dom() == old(self).spec_components().spec_managers().dom(),
            forall|k: u64| #![trigger old(self).spec_components().spec_managers().contains_key(k)]
                old(self).spec_components().spec_managers().contains_key(k) ==> committed_of(
                    final(self).spec_components().spec_managers()[k],
                    old(self).spec_components().spec_managers()[k],
                ),
    {
        self.components.replace()
    }
}

} // verus!
