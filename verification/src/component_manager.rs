//! Double-buffered component stores.

use vstd::prelude::*;

use crate::cell::commit_read;
use crate::cell::DoubleBufferedCell;
use crate::component::Component;
use crate::entity::Entity;
use crate::table::as_map;
use crate::table::distinct_keys;
use crate::table::lemma_as_map_pointwise;
use crate::table::HashTable;
use crate::table::VecTable;

verus! {

/// A single-type, double-buffered store mapping entities to component
/// cells. As with the plain stores, the hash-indexed and vector-indexed
/// implementations satisfy the same contracts over the same map view and
/// are observably interchangeable. `replace` is the tick-boundary commit
/// pass over every stored cell.
pub trait ComponentManager<T>: Sized {
    /// Well-formedness of the store's internal structure; every operation
    /// preserves it.
    spec fn wf(&self) -> bool;

    /// The finite map from entity id to stored cell.
    spec fn cells(&self) -> Map<u64, DoubleBufferedCell<T>>;

    /// An empty store.
    fn new() -> (manager: Self)
        ensures
            manager.wf(),
            manager.cells() == Map::<u64, DoubleBufferedCell<T>>::empty(),
    ;

    /// Drops every stored cell.
    fn clear(&mut self)
        requires
            old(self).wf(),
        ensures
            final(self).wf(),
            final(self).cells() == Map::<u64, DoubleBufferedCell<T>>::empty(),
    ;

    /// The cell attached to `entity`, if any; on a missing entity, `None`,
    /// never an error.
    fn get(&self, entity: &Entity) -> (cell: Option<&DoubleBufferedCell<T>>)
        requires
            self.wf(),
        ensures
            match cell {
                Some(c) => self.cells().contains_key(entity.id) && *c == self.cells()[entity.id],
                None => !self.cells().contains_key(entity.id),
            },
    ;

    /// Mutable access to the current value of the component attached to
    /// `entity`, if any, for in-place algorithms; writes through it are
    /// visible to readers immediately. Anything staged stays staged.
    fn get_mut(&mut self, entity: &Entity) -> (component: Option<&mut T>)
        requires
            old(self).wf(),
        ensures
            match component {
                Some(c) => {
                    &&& old(self).cells().contains_key(entity.id)
                    &&& *c == old(self).cells()[entity.id].current
                    &&& final(self).wf()
                    &&& final(self).cells() == old(self).cells().insert(
                        entity.id,
                        (DoubleBufferedCell {
                            current: *final(c),
                            pending: old(self).cells()[entity.id].pending,
                        }),
                    )
                },
                None => {
                    &&& !old(self).cells().contains_key(entity.id)
                    &&& final(self).wf()
                    &&& final(self).cells() == old(self).cells()
                },
            },
    ;

    /// Whether a component is attached to `entity`.
    fn contains(&self, entity: &Entity) -> (present: bool)
        requires
            self.wf(),
        ensures
            present == self.cells().contains_key(entity.id),
    ;

    /// Attaches `component` to `entity` in a fresh cell with nothing
    /// staged; a cell already attached is silently replaced — last write
    /// wins.
    fn insert(&mut self, entity: Entity, component: T)
        requires
            old(self).wf(),
        ensures
            final(self).wf(),
            final(self).cells() == old(self).cells().insert(
                entity.id,
                (DoubleBufferedCell { current: component, pending: None::<T> }),
            ),
    ;

    /// Stages `component` as the next-tick value of the cell attached to
    /// `entity`, leaving the current value readable; returns whether a cell
    /// was attached. On a missing entity nothing changes.
    fn stage(&mut self, entity: &Entity, component: T) -> (present: bool)
        requires
            old(self).wf(),
        ensures
            final(self).wf(),
            present == old(self).cells().contains_key(entity.id),
            present ==> final(self).cells() == old(self).cells().insert(
                entity.id,
                (DoubleBufferedCell {
                    current: old(self).cells()[entity.id].current,
                    pending: Some(component),
                }),
            ),
            !present ==> final(self).cells() == old(self).cells(),
    ;

    /// Detaches the cell attached to `entity` and returns its current
    /// value; on a missing entity, `None`, never an error.
    fn remove(&mut self, entity: &Entity) -> (component: Option<T>)
        requires
            old(self).wf(),
        ensures
            final(self).wf(),
            final(self).cells() == old(self).cells().remove(entity.id),
            match component {
                Some(c) => old(self).cells().contains_key(entity.id) && c == old(
                    self,
                ).cells()[entity.id].current,
                None => !old(self).cells().contains_key(entity.id),
            },
    ;

    /// A store holds finitely many entities.
    proof fn lemma_cells_finite(&self)
        ensures
            self.cells().dom().finite(),
    ;

    /// How many entities hold a component of this store's type.
    fn len(&self) -> (n: usize)
        requires
            self.wf(),
        ensures
            self.cells().dom().finite(),
            n == self.cells().dom().len(),
    ;

    /// The tick-boundary commit pass: every stored cell's staged value, if
    /// any, becomes its current value, and nothing is left staged. The set
    /// of stored entities is untouched.
    fn replace(&mut self)
        requires
            old(self).wf(),
        ensures
            final(self).wf(),
            final(self).cells().dom() == old(self).cells().dom(),
            forall|k: u64| #![trigger old(self).cells().contains_key(k)]
                old(self).cells().contains_key(k) ==> final(self).cells()[k]
                    == (DoubleBufferedCell {
                    current: commit_read(old(self).cells()[k]),
                    pending: None::<T>,
                }),
    ;
}

/// The hash-indexed double-buffered store.
pub struct HashMapComponentManager<T> {
    table: HashTable<DoubleBufferedCell<T>>,
}

impl<T> ComponentManager<T> for HashMapComponentManager<T> {
    closed spec fn wf(&self) -> bool {
        self.table.wf()
    }

    closed spec fn cells(&self) -> Map<u64, DoubleBufferedCell<T>> {
        self.table.contents()
    }

    fn new() -> Self {
        HashMapComponentManager { table: HashTable::new() }
    }

    fn clear(&mut self) {
        self.table.clear();
    }

    fn get(&self, entity: &Entity) -> Option<&DoubleBufferedCell<T>> {
        self.table.get(entity.id)
    }

    fn get_mut(&mut self, entity: &Entity) -> Option<&mut T> {
        match self.table.get_mut(entity.id) {
            Some(cell) => Some(cell.get_mut()),
            None => None,
        }
    }

    fn contains(&self, entity: &Entity) -> bool {
        self.table.contains(entity.id)
    }

    fn insert(&mut self, entity: Entity, component: T) {
        self.table.insert(entity.id, DoubleBufferedCell::new(component));
    }

    fn stage(&mut self, entity: &Entity, component: T) -> bool {
        match self.table.get_mut(entity.id) {
            Some(cell) => {
                cell.stage(component);
                true
            },
            None => false,
        }
    }

    fn remove(&mut self, entity: &Entity) -> Option<T> {
        match self.table.remove(entity.id) {
            Some(cell) => Some(cell.take()),
            None => None,
        }
    }

    proof fn lemma_cells_finite(&self) {
        crate::table::lemma_as_map_finite(self.table.spec_entries());
    }

    fn len(&self) -> usize {
        proof {
            self.table.lemma_wf_distinct();
            crate::table::lemma_as_map_dom_len(self.table.spec_entries());
        }
        self.table.len()
    }

    fn replace(&mut self) {
        let ghost s0 = self.table.spec_entries();
        proof {
            self.table.lemma_wf_distinct();
        }
        let n = self.table.len();
        let mut i: usize = 0;
        while i < n
            invariant
                self.table.wf(),
                self.table.spec_entries().len() == n,
                s0.len() == n,
                i <= n,
                distinct_keys(s0),
                forall|j: int|
                    0 <= j < n ==> (#[trigger] self.table.spec_entries()[j]).0 == s0[j].0,
                forall|j: int|
                    0 <= j < i ==> (#[trigger] self.table.spec_entries()[j]).1
                        == (DoubleBufferedCell {
                        current: commit_read(s0[j].1),
                        pending: None::<T>,
                    }),
                forall|j: int| i <= j < n ==> (#[trigger] self.table.spec_entries()[j]).1 == s0[j].1,
            decreases n - i,
        {
            let cell = self.table.value_at_mut(i);
            cell.commit();
            i += 1;
        }
        proof {
            let s1 = self.table.spec_entries();
            lemma_as_map_pointwise(s0, s1);
            assert forall|k: u64| #![trigger as_map(s0).contains_key(k)]
                as_map(s0).contains_key(k) implies as_map(s1)[k] == (DoubleBufferedCell {
                current: commit_read(as_map(s0)[k]),
                pending: None::<T>,
            }) by {
                let j = choose|j: int| 0 <= j < s0.len() && s0[j].0 == k;
                assert(as_map(s0)[k] == s0[j].1);
                assert(as_map(s1)[k] == s1[j].1);
            }
        }
    }
}

/// The vector-indexed double-buffered store.
pub struct VecComponentManager<T> {
    table: VecTable<DoubleBufferedCell<T>>,
}

impl<T> ComponentManager<T> for VecComponentManager<T> {
    closed spec fn wf(&self) -> bool {
        self.table.wf()
    }

    closed spec fn cells(&self) -> Map<u64, DoubleBufferedCell<T>> {
        self.table.contents()
    }

    fn new() -> Self {
        VecComponentManager { table: VecTable::new() }
    }

    fn clear(&mut self) {
        self.table.clear();
    }

    fn get(&self, entity: &Entity) -> Option<&DoubleBufferedCell<T>> {
        self.table.get(entity.id)
    }

    fn get_mut(&mut self, entity: &Entity) -> Option<&mut T> {
        match self.table.get_mut(entity.id) {
            Some(cell) => Some(cell.get_mut()),
            None => None,
        }
    }

    fn contains(&self, entity: &Entity) -> bool {
        self.table.contains(entity.id)
    }

    fn insert(&mut self, entity: Entity, component: T) {
        self.table.insert(entity.id, DoubleBufferedCell::new(component));
    }

    fn stage(&mut self, entity: &Entity, component: T) -> bool {
        match self.table.get_mut(entity.id) {
            Some(cell) => {
                cell.stage(component);
                true
            },
            None => false,
        }
    }

    fn remove(&mut self, entity: &Entity) -> Option<T> {
        match self.table.remove(entity.id) {
            Some(cell) => Some(cell.take()),
            None => None,
        }
    }

    proof fn lemma_cells_finite(&self) {
        crate::table::lemma_as_map_finite(self.table.spec_entries());
    }

    fn len(&self) -> usize {
        proof {
            crate::table::lemma_as_map_dom_len(self.table.spec_entries());
        }
        self.table.len()
    }

    fn replace(&mut self) {
        let ghost s0 = self.table.spec_entries();
        let n = self.table.len();
        let mut i: usize = 0;
        while i < n
            invariant
                self.table.wf(),
                self.table.spec_entries().len() == n,
                s0.len() == n,
                i <= n,
                distinct_keys(s0),
                forall|j: int|
                    0 <= j < n ==> (#[trigger] self.table.spec_entries()[j]).0 == s0[j].0,
                forall|j: int|
                    0 <= j < i ==> (#[trigger] self.table.spec_entries()[j]).1
                        == (DoubleBufferedCell {
                        current: commit_read(s0[j].1),
                        pending: None::<T>,
                    }),
                forall|j: int| i <= j < n ==> (#[trigger] self.table.spec_entries()[j]).1 == s0[j].1,
            decreases n - i,
        {
            let cell = self.table.value_at_mut(i);
            cell.commit();
            i += 1;
        }
        proof {
            let s1 = self.table.spec_entries();
            lemma_as_map_pointwise(s0, s1);
            assert forall|k: u64| #![trigger as_map(s0).contains_key(k)]
                as_map(s0).contains_key(k) implies as_map(s1)[k] == (DoubleBufferedCell {
                current: commit_read(as_map(s0)[k]),
                pending: None::<T>,
            }) by {
                let j = choose|j: int| 0 <= j < s0.len() && s0[j].0 == k;
                assert(as_map(s0)[k] == s0[j].1);
                assert(as_map(s1)[k] == s1[j].1);
            }
        }
    }
}

/// The double-buffered store a component type chose for itself, behind one
/// uniform front; the component registry keeps one of these per registered
/// type.
pub struct WrappedComponentManager<T: Component> {
    inner: T::ComponentManager,
}

impl<T: Component> ComponentManager<T> for WrappedComponentManager<T> {
    closed spec fn wf(&self) -> bool {
        self.inner.wf()
    }

    closed spec fn cells(&self) -> Map<u64, DoubleBufferedCell<T>> {
        self.inner.cells()
    }

    fn new() -> Self {
        WrappedComponentManager { inner: T::ComponentManager::new() }
    }

    fn clear(&mut self) {
        self.inner.clear();
    }

    fn get(&self, entity: &Entity) -> Option<&DoubleBufferedCell<T>> {
        self.inner.get(entity)
    }

    fn get_mut(&mut self, entity: &Entity) -> Option<&mut T> {
        self.inner.get_mut(entity)
    }

    fn contains(&self, entity: &Entity) -> bool {
        self.inner.contains(entity)
    }

    fn insert(&mut self, entity: Entity, component: T) {
        self.inner.insert(entity, component);
    }

    fn stage(&mut self, entity: &Entity, component: T) -> bool {
        self.inner.stage(entity, component)
    }

    fn remove(&mut self, entity: &Entity) -> Option<T> {
        self.inner.remove(entity)
    }

    proof fn lemma_cells_finite(&self) {
        self.inner.lemma_cells_finite();
    }

    fn len(&self) -> usize {
        self.inner.len()
    }

    fn replace(&mut self) {
        self.inner.replace();
    }
}

} // verus!
