//! Plain-value component stores.

use vstd::prelude::*;

use crate::component::Component;
use crate::entity::Entity;
use crate::table::HashTable;
use crate::table::VecTable;

verus! {

/// A single-type store mapping entities to plain component values. The two
/// implementations — hash-indexed and vector-indexed — satisfy the same
/// contracts over the same map view, so they are observably interchangeable
/// for any sequence of operations.
pub trait Manager<T>: Sized {
    /// Well-formedness of the store's internal structure; every operation
    /// preserves it.
    spec fn wf(&self) -> bool;

    /// The finite map from entity id to stored component.
    spec fn contents(&self) -> Map<u64, T>;

    /// An empty store.
    fn new() -> (manager: Self)
        ensures
            manager.wf(),
            manager.contents() == Map::<u64, T>::empty(),
    ;

    /// Drops every stored component.
    fn clear(&mut self)
        requires
            old(self).wf(),
        ensures
            final(self).wf(),
            final(self).contents() == Map::<u64, T>::empty(),
    ;

    /// The component attached to `entity`, if any; on a missing entity,
    /// `None`, never an error.
    fn get(&self, entity: &Entity) -> (component: Option<&T>)
        requires
            self.wf(),
        ensures
            match component {
                Some(c) => self.contents().contains_key(entity.id) && *c == self.contents()[entity.id],
                None => !self.contents().contains_key(entity.id),
            },
    ;

    /// Mutable access to the component attached to `entity`, if any.
    fn get_mut(&mut self, entity: &Entity) -> (component: Option<&mut T>)
        requires
            old(self).wf(),
        ensures
            match component {
                Some(c) => {
                    &&& old(self).contents().contains_key(entity.id)
                    &&& *c == old(self).contents()[entity.id]
                    &&& final(self).wf()
                    &&& final(self).contents() == old(self).contents().insert(
                        entity.id,
                        *final(c),
                    )
                },
                None => {
                    &&& !old(self).contents().contains_key(entity.id)
                    &&& final(self).wf()
                    &&& final(self).contents() == old(self).contents()
                },
            },
    ;

    /// Whether a component is attached to `entity`.
    fn contains(&self, entity: &Entity) -> (present: bool)
        requires
            self.wf(),
        ensures
            present == self.contents().contains_key(entity.id),
    ;

    /// Attaches `component` to `entity`; a component already attached is
    /// silently replaced — last write wins.
    fn insert(&mut self, entity: Entity, component: T)
        requires
            old(self).wf(),
        ensures
            final(self).wf(),
            final(self).contents() == old(self).contents().insert(entity.id, component),
    ;

    /// Detaches and returns the component attached to `entity`; on a missing
    /// entity, `None`, never an error.
    fn remove(&mut self, entity: &Entity) -> (component: Option<T>)
        requires
            old(self).wf(),
        ensures
            final(self).wf(),
            final(self).contents() == old(self).contents().remove(entity.id),
            match component {
                Some(c) => old(self).contents().contains_key(entity.id) && c == old(
                    self,
                ).contents()[entity.id],
                None => !old(self).contents().contains_key(entity.id),
            },
    ;
}

/// The hash-indexed plain store: O(1) average lookups, the preferred default
/// for components with unpredictable entity churn.
pub struct HashMapManager<T> {
    table: HashTable<T>,
}

impl<T> Manager<T> for HashMapManager<T> {
    closed spec fn wf(&self) -> bool {
        self.table.wf()
    }

    closed spec fn contents(&self) -> Map<u64, T> {
        self.table.contents()
    }

    fn new() -> Self {
        HashMapManager { table: HashTable::new() }
    }

    fn clear(&mut self) {
        self.table.clear();
    }

    fn get(&self, entity: &Entity) -> Option<&T> {
        self.table.get(entity.id)
    }

    fn get_mut(&mut self, entity: &Entity) -> Option<&mut T> {
        self.table.get_mut(entity.id)
    }

    fn contains(&self, entity: &Entity) -> bool {
        self.table.contains(entity.id)
    }

    fn insert(&mut self, entity: Entity, component: T) {
        self.table.insert(entity.id, component);
    }

    fn remove(&mut self, entity: &Entity) -> Option<T> {
        self.table.remove(entity.id)
    }
}

/// The vector-indexed plain store: linear scans by entity id, better cache
/// locality and lower overhead for small, densely-iterated component sets.
pub struct VecManager<T> {
    table: VecTable<T>,
}

impl<T> Manager<T> for VecManager<T> {
    closed spec fn wf(&self) -> bool {
        self.table.wf()
    }

    closed spec fn contents(&self) -> Map<u64, T> {
        self.table.contents()
    }

    fn new() -> Self {
        VecManager { table: VecTable::new() }
    }

    fn clear(&mut self) {
        self.table.clear();
    }

    fn get(&self, entity: &Entity) -> Option<&T> {
        self.table.get(entity.id)
    }

    fn get_mut(&mut self, entity: &Entity) -> Option<&mut T> {
        self.table.get_mut(entity.id)
    }

    fn contains(&self, entity: &Entity) -> bool {
        self.table.contains(entity.id)
    }

    fn insert(&mut self, entity: Entity, component: T) {
        self.table.insert(entity.id, component);
    }

    fn remove(&mut self, entity: &Entity) -> Option<T> {
        self.table.remove(entity.id)
    }
}

/// The store a component type chose for itself, behind one uniform front.
pub struct MaskedManager<T: Component> {
    inner: T::Manager,
}

impl<T: Component> MaskedManager<T> {
    /// The inner store's well-formedness.
    pub closed spec fn wf(&self) -> bool {
        self.inner.wf()
    }

    /// The inner store's map from entity id to component.
    pub closed spec fn contents(&self) -> Map<u64, T> {
        self.inner.contents()
    }

    /// An empty store of the component type's chosen strategy.
    pub fn new() -> (manager: MaskedManager<T>)
        ensures
            manager.wf(),
            manager.contents() == Map::<u64, T>::empty(),
    {
        MaskedManager { inner: T::Manager::new() }
    }

    /// Drops every stored component.
    pub fn clear(&mut self)
        requires
            old(self).wf(),
        ensures
            final(self).wf(),
            final(self).contents() == Map::<u64, T>::empty(),
    {
        self.inner.clear();
    }

    /// The component attached to `entity`, if any.
    pub fn get(&self, entity: &Entity) -> (component: Option<&T>)
        requires
            self.wf(),
        ensures
            match component {
                Some(c) => self.contents().contains_key(entity.id) && *c == self.contents()[entity.id],
                None => !self.contents().contains_key(entity.id),
            },
    {
        self.inner.get(entity)
    }

    /// Mutable access to the component attached to `entity`, if any.
    pub fn get_mut(&mut self, entity: &Entity) -> (component: Option<&mut T>)
        requires
            old(self).wf(),
        ensures
            match component {
                Some(c) => {
                    &&& old(self).contents().contains_key(entity.id)
                    &&& *c == old(self).contents()[entity.id]
                    &&& final(self).wf()
                    &&& final(self).contents() == old(self).contents().insert(
                        entity.id,
                        *final(c),
                    )
                },
                None => {
                    &&& !old(self).contents().contains_key(entity.id)
                    &&& final(self).wf()
                    &&& final(self).contents() == old(self).contents()
                },
            },
    {
        self.inner.get_mut(entity)
    }

    /// Whether a component is attached to `entity`.
    pub fn contains(&self, entity: &Entity) -> (present: bool)
        requires
            self.wf(),
        ensures
            present == self.contents().contains_key(entity.id),
    {
        self.inner.contains(entity)
    }

    /// Attaches `component` to `entity`; a component already attached is
    /// silently replaced.
    pub fn insert(&mut self, entity: Entity, component: T)
        requires
            old(self).wf(),
        ensures
            final(self).wf(),
            final(self).contents() == old(self).contents().insert(entity.id, component),
    {
        self.inner.insert(entity, component);
    }

    /// Detaches and returns the component attached to `entity`, if any.
    pub fn remove(&mut self, entity: &Entity) -> (component: Option<T>)
        requires
            old(self).wf(),
        ensures
            final(self).wf(),
            final(self).contents() == old(self).contents().remove(entity.id),
            match component {
                Some(c) => old(self).contents().contains_key(entity.id) && c == old(
                    self,
                ).contents()[entity.id],
                None => !old(self).contents().contains_key(entity.id),
            },
    {
        self.inner.remove(entity)
    }
}

/// After `insert(e, v)`, `get(e)` answers `Some(v)`: insertion maps the
/// entity's id to the component, where the lookup contract then finds it.
pub proof fn lemma_insert_then_get<T>(contents: Map<u64, T>, id: u64, component: T)
    ensures
        contents.insert(id, component).contains_key(id),
        contents.insert(id, component)[id] == component,
{
}

/// After `remove(e)`, `get(e)` answers `None`: removal takes the entity's
/// id out of the map, where the lookup contract then misses it — and
/// removing an absent entity answers `None` without failing, as `remove`'s
/// own contract states.
pub proof fn lemma_remove_then_get<T>(contents: Map<u64, T>, id: u64)
    ensures
        !contents.remove(id).contains_key(id),
{
}

} // verus!
