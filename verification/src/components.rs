//! The keyed, type-erased component registry.
//!
//! Each component type a simulation uses is registered under a caller-chosen
//! key and gets an independent double-buffered store. Rather than relying on
//! runtime type identities and unchecked downcasts, the registry is generic
//! over one closed component sum type `C`: a consumer lists its component
//! variants in `C`, registers one key per variant, and the registry keeps
//! one store per key.

use vstd::prelude::*;

use crate::cell::commit_read;
use crate::cell::DoubleBufferedCell;
use crate::component::Component;
use crate::component_manager::ComponentManager;
use crate::component_manager::WrappedComponentManager;
use crate::entity::Entity;
use crate::error::UsageError;
use crate::table::as_map;
use crate::table::lemma_as_map_index;
use crate::table::lemma_as_map_pointwise;
use crate::table::HashTable;

verus! {

/// Whether `after` is `before` with every cell committed: the same entities,
/// each cell holding its committed read with nothing left staged.
pub open spec fn committed_of<C: Component>(
    after: WrappedComponentManager<C>,
    before: WrappedComponentManager<C>,
) -> bool {
    &&& after.wf()
    &&& after.cells().dom() == before.cells().dom()
    &&& forall|e: u64|
        #![trigger before.cells().contains_key(e)]
        #![trigger after.cells()[e]]
        before.cells().contains_key(e) ==> after.cells()[e] == (DoubleBufferedCell {
            current: commit_read(before.cells()[e]),
            pending: None::<C>,
        })
}

/// Barrier correctness, per store: a write staged during one tick is not
/// readable before that tick's commit pass — `stage`'s contract leaves the
/// current value in place — and is exactly what is read after it: across
/// the commit relation, a staged value becomes the current one, and nothing
/// stays staged.
pub proof fn lemma_tick_visibility<C: Component>(
    after: WrappedComponentManager<C>,
    before: WrappedComponentManager<C>,
    entity: u64,
    staged: C,
)
    requires
        committed_of(after, before),
        before.cells().contains_key(entity),
        before.cells()[entity].pending == Some(staged),
    ensures
        after.cells()[entity].current == staged,
        after.cells()[entity].pending is None,
{
}

/// The registry of component stores, one per registered component-type key;
/// a type must be registered before components of it can be attached.
pub struct Components<C: Component> {
    component_managers: HashTable<WrappedComponentManager<C>>,
}

impl<C: Component> Components<C> {
    /// The finite map from component-type key to that type's store.
    pub closed spec fn spec_managers(&self) -> Map<u64, WrappedComponentManager<C>> {
        self.component_managers.contents()
    }

    /// Well-formed: the registry's own table and every registered store are.
    pub closed spec fn wf(&self) -> bool {
        &&& self.component_managers.wf()
        &&& forall|k: u64| #![trigger self.spec_managers()[k]]
            self.spec_managers().contains_key(k) ==> self.spec_managers()[k].wf()
    }

    /// An empty registry: no component type is registered.
    pub fn new() -> (components: Components<C>)
        ensures
            components.wf(),
            components.spec_managers() == Map::<u64, WrappedComponentManager<C>>::empty(),
    {
        Components { component_managers: HashTable::new() }
    }

    /// Registers the component-type key, giving it a fresh, empty store.
    /// Re-registering an already-registered key replaces its store, losing
    /// the prior data; that is documented behavior, not defended against.
    pub fn register(&mut self, key: u64)
        requires
            old(self).wf(),
        ensures
            final(self).wf(),
            final(self).spec_managers().dom() == old(self).spec_managers().dom().insert(key),
            final(self).spec_managers()[key].cells() == Map::<u64, DoubleBufferedCell<C>>::empty(),
            forall|k: u64| #![trigger final(self).spec_managers()[k]]
                old(self).spec_managers().contains_key(k) && k != key ==> final(self).spec_managers()[k] == old(self).spec_managers()[k],
    {
        let manager = WrappedComponentManager::<C>::new();
        self.component_managers.insert(key, manager);
        proof {
            assert forall|k: u64| final(self).spec_managers().contains_key(k) implies (
            #[trigger] final(self).spec_managers()[k]).wf() by {
                if k != key {
                    assert(final(self).spec_managers()[k] == old(self).spec_managers()[k]);
                }
            }
            assert(final(self).spec_managers().dom() =~= old(self).spec_managers().dom().insert(
                key,
            ));
        }
    }

    /// Unregisters the component-type key, dropping its store outright.
    pub fn unregister(&mut self, key: u64)
        requires
            old(self).wf(),
        ensures
            final(self).wf(),
            final(self).spec_managers() == old(self).spec_managers().remove(key),
    {
        let _ = self.component_managers.remove(key);
        proof {
            assert forall|k: u64| final(self).spec_managers().contains_key(k) implies (
            #[trigger] final(self).spec_managers()[k]).wf() by {
                assert(final(self).spec_managers()[k] == old(self).spec_managers()[k]);
            }
        }
    }

    /// The store registered under `key`; accessing an unregistered key is a
    /// fatal usage error, reported, never silently ignored.
    pub fn component_manager(&self, key: u64) -> (manager: Result<
        &WrappedComponentManager<C>,
        UsageError,
    >)
        requires
            self.wf(),
        ensures
            match manager {
                Ok(m) => self.spec_managers().contains_key(key) && *m == self.spec_managers()[key]
                    && m.wf(),
                Err(e) => e == UsageError::UnregisteredComponent && !self.spec_managers()
                    .contains_key(key),
            },
    {
        proof {
            if self.spec_managers().contains_key(key) {
                assert(self.spec_managers()[key].wf());
            }
        }
        match self.component_managers.get(key) {
            Some(m) => Ok(m),
            None => Err(UsageError::UnregisteredComponent),
        }
    }

    /// Mutable access to the store registered under `key`; accessing an
    /// unregistered key is a fatal usage error. The registry stays
    /// well-formed as long as the caller leaves the store well-formed, which
    /// every store operation does.
    pub fn component_manager_mut(&mut self, key: u64) -> (manager: Result<
        &mut WrappedComponentManager<C>,
        UsageError,
    >)
        requires
            old(self).wf(),
        ensures
            match manager {
                Ok(m) => {
                    &&& old(self).spec_managers().contains_key(key)
                    &&& *m == old(self).spec_managers()[key]
                    &&& m.wf()
                    &&& final(self).spec_managers() == old(self).spec_managers().insert(
                        key,
                        *final(m),
                    )
                    &&& final(m).wf() ==> final(self).wf()
                },
                Err(e) => {
                    &&& e == UsageError::UnregisteredComponent
                    &&& !old(self).spec_managers().contains_key(key)
                    &&& final(self).wf()
                    &&& final(self).spec_managers() == old(self).spec_managers()
                },
            },
    {
        match self.component_managers.get_mut(key) {
            Some(m) => Ok(m),
            None => Err(UsageError::UnregisteredComponent),
        }
    }

    /// Attaches `component` to `entity` in the store registered under
    /// `key`; a component already attached there is silently replaced. On
    /// an unregistered key, the usage error, and nothing changes.
    pub fn insert(&mut self, key: u64, entity: Entity, component: C) -> (outcome: Result<
        (),
        UsageError,
    >)
        requires
            old(self).wf(),
        ensures
            final(self).wf(),
            match outcome {
                Ok(()) => {
                    &&& old(self).spec_managers().contains_key(key)
                    &&& final(self).spec_managers().dom() == old(self).spec_managers().dom()
                    &&& final(self).spec_managers()[key].cells() == old(self).spec_managers()[key].cells().insert(
                        entity.id,
                        (DoubleBufferedCell { current: component, pending: None::<C> }),
                    )
                    &&& forall|k: u64| #![trigger final(self).spec_managers()[k]]
                        old(self).spec_managers().contains_key(k) && k != key ==> final(self).spec_managers()[k] == old(self).spec_managers()[k]
                },
                Err(e) => {
                    &&& e == UsageError::UnregisteredComponent
                    &&& !old(self).spec_managers().contains_key(key)
                    &&& final(self).spec_managers() == old(self).spec_managers()
                },
            },
    {
        proof {
            if old(self).spec_managers().contains_key(key) {
                assert(old(self).spec_managers()[key].wf());
            }
        }
        match self.component_managers.get_mut(key) {
            Some(m) => {
                m.insert(entity, component);
                proof {
                    assert forall|k: u64|
                        final(self).spec_managers().contains_key(k) implies (#[trigger] final(self).spec_managers()[k]).wf() by {
                        if k != key {
                            assert(final(self).spec_managers()[k] == old(self).spec_managers()[k]);
                        }
                    }
                    assert(final(self).spec_managers().dom() =~= old(self).spec_managers().dom());
                }
                Ok(())
            },
            None => Err(UsageError::UnregisteredComponent),
        }
    }

    /// Detaches the component of the store registered under `key` from
    /// `entity` and returns its current value; a missing component is
    /// `None`, not an error. On an unregistered key, the usage error, and
    /// nothing changes.
    pub fn remove(&mut self, key: u64, entity: &Entity) -> (outcome: Result<Option<C>, UsageError>)
        requires
            old(self).wf(),
        ensures
            final(self).wf(),
            match outcome {
                Ok(removed) => {
                    &&& old(self).spec_managers().contains_key(key)
                    &&& final(self).spec_managers().dom() == old(self).spec_managers().dom()
                    &&& final(self).spec_managers()[key].cells() == old(self).spec_managers()[key].cells().remove(entity.id)
                    &&& forall|k: u64| #![trigger final(self).spec_managers()[k]]
                        old(self).spec_managers().contains_key(k) && k != key ==> final(self).spec_managers()[k] == old(self).spec_managers()[k]
                    &&& match removed {
                        Some(c) => old(self).spec_managers()[key].cells().contains_key(entity.id)
                            && c == old(self).spec_managers()[key].cells()[entity.id].current,
                        None => !old(self).spec_managers()[key].cells().contains_key(entity.id),
                    }
                },
                Err(e) => {
                    &&& e == UsageError::UnregisteredComponent
                    &&& !old(self).spec_managers().contains_key(key)
                    &&& final(self).spec_managers() == old(self).spec_managers()
                },
            },
    {
        proof {
            if old(self).spec_managers().contains_key(key) {
                assert(old(self).spec_managers()[key].wf());
            }
        }
        match self.component_managers.get_mut(key) {
            Some(m) => {
                let removed = m.remove(entity);
                proof {
                    assert forall|k: u64|
                        final(self).spec_managers().contains_key(k) implies (#[trigger] final(self).spec_managers()[k]).wf() by {
                        if k != key {
                            assert(final(self).spec_managers()[k] == old(self).spec_managers()[k]);
                        }
                    }
                    assert(final(self).spec_managers().dom() =~= old(self).spec_managers().dom());
                }
                Ok(removed)
            },
            None => Err(UsageError::UnregisteredComponent),
        }
    }

    /// The tick-boundary pass: commits every cell of every registered
    /// store. The registered keys and the stored entities are untouched.
    pub fn replace(&mut self)
        requires
            old(self).wf(),
        ensures
            final(self).wf(),
            final(self).spec_managers().dom() == old(self).spec_managers().dom(),
            forall|k: u64| #![trigger old(self).spec_managers().contains_key(k)]
                old(self).spec_managers().contains_key(k) ==> committed_of(
                    final(self).spec_managers()[k],
                    old(self).spec_managers()[k],
                ),
    {
        let ghost s0 = self.component_managers.spec_entries();
        proof {
            self.component_managers.lemma_wf_distinct();
            assert forall|j: int| 0 <= j < s0.len() implies (#[trigger] s0[j]).1.wf() by {
                lemma_as_map_index(s0, j);
                assert(old(self).spec_managers()[s0[j].0] == s0[j].1);
            }
        }
        let n = self.component_managers.len();
        let mut i: usize = 0;
        while i < n
            invariant
                self.component_managers.wf(),
                self.component_managers.spec_entries().len() == n,
                s0.len() == n,
                i <= n,
                crate::table::distinct_keys(s0),
                forall|j: int| 0 <= j < n ==> (#[trigger] s0[j]).1.wf(),
                forall|j: int|
                    0 <= j < n ==> (#[trigger] self.component_managers.spec_entries()[j]).0
                        == s0[j].0,
                forall|j: int|
                    0 <= j < i ==> committed_of(
                        (#[trigger] self.component_managers.spec_entries()[j]).1,
                        s0[j].1,
                    ),
                forall|j: int|
                    i <= j < n ==> (#[trigger] self.component_managers.spec_entries()[j]).1
                        == s0[j].1,
            decreases n - i,
        {
            let m = self.component_managers.value_at_mut(i);
            m.replace();
            i += 1;
        }
        proof {
            let s1 = self.component_managers.spec_entries();
            lemma_as_map_pointwise(s0, s1);
            assert forall|k: u64| #![trigger as_map(s0).contains_key(k)]
                as_map(s0).contains_key(k) implies committed_of(as_map(s1)[k], as_map(s0)[k]) by {
                let j = choose|j: int| 0 <= j < s0.len() && s0[j].0 == k;
                assert(as_map(s0)[k] == s0[j].1);
                assert(as_map(s1)[k] == s1[j].1);
            }
            assert forall|k: u64|
                final(self).spec_managers().contains_key(k) implies (#[trigger] final(self).spec_managers()[k]).wf() by {
                assert(committed_of(as_map(s1)[k], as_map(s0)[k]));
            }
        }
    }
}

} // verus!
