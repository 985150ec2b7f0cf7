//! The tick driver.

use vstd::prelude::*;

use crate::component::Component;
use crate::component_manager::ComponentManager;
use crate::components::committed_of;
use crate::components::Components;
use crate::entity_manager::EntityManager;
use crate::process::Process;
use crate::processes::sort_spec;
use crate::processes::Processes;

verus! {

/// Whether every cell of every registered store has nothing staged: the
/// state a completed tick leaves behind, in which every staged write has
/// become a current read.
pub open spec fn fully_committed<C: Component>(components: Components<C>) -> bool {
    forall|k: u64, e: u64| #![trigger components.spec_managers()[k].cells()[e]]
        components.spec_managers().contains_key(k) && components.spec_managers()[k].cells()
            .contains_key(e) ==> components.spec_managers()[k].cells()[e].pending is None
}

/// Orchestrates ticks over one entity manager and one process registry.
/// `update` runs one tick: every registered process runs, in dispatch
/// order, then the commit pass makes this tick's staged writes the next
/// tick's current reads. No tick's commit pass runs before every process of
/// that tick has finished.
pub struct Scene<P: Process> {
    entity_manager: EntityManager<P::C>,
    processes: Processes<P>,
}

impl<P: Process> Scene<P> {
    /// The entity and component registries.
    pub closed spec fn spec_entity_manager(&self) -> EntityManager<P::C> {
        self.entity_manager
    }

    /// The process registry.
    pub closed spec fn spec_processes(&self) -> Processes<P> {
        self.processes
    }

    /// Well-formed: both registries are.
    pub open spec fn wf(&self) -> bool {
        self.spec_entity_manager().wf() && self.spec_processes().wf()
    }

    /// An empty scene: no entity, no component type, no process.
    pub fn new() -> (scene: Scene<P>)
        ensures
            scene.wf(),
            scene.spec_entity_manager().spec_entities()@ == Set::<u64>::empty(),
            scene.spec_entity_manager().spec_components().spec_managers() == Map::<
                u64,
                crate::component_manager::WrappedComponentManager<P::C>,
            >::empty(),
            scene.spec_processes().spec_processes().len() == 0,
    {
        Scene { entity_manager: EntityManager::new(), processes: Processes::new() }
    }

    /// The entity manager, read-only.
    pub fn entity_manager(&self) -> (entity_manager: &EntityManager<P::C>)
        ensures
            *entity_manager == self.spec_entity_manager(),
    {
        &self.entity_manager
    }

    /// The entity manager, writable; the process registry is untouched.
    pub fn entity_manager_mut(&mut self) -> (entity_manager: &mut EntityManager<P::C>)
        ensures
            *entity_manager == old(self).spec_entity_manager(),
            final(self).spec_entity_manager() == *final(entity_manager),
            final(self).spec_processes() == old(self).spec_processes(),
    {
        &mut self.entity_manager
    }

    /// The process registry, read-only.
    pub fn processes(&self) -> (processes: &Processes<P>)
        ensures
            *processes == self.spec_processes(),
    {
        &self.processes
    }

    /// The process registry, writable; the entity manager is untouched.
    pub fn processes_mut(&mut self) -> (processes: &mut Processes<P>)
        ensures
            *processes == old(self).spec_processes(),
            final(self).spec_processes() == *final(processes),
            final(self).spec_entity_manager() == old(self).spec_entity_manager(),
    {
        &mut self.processes
    }

    /// Prepares the scene for ticking: stable-sorts the processes by
    /// priority, so lower-priority-number processes are dispatched first.
    pub fn init(&mut self)
        requires
            old(self).wf(),
        ensures
            final(self).wf(),
            final(self).spec_entity_manager() == old(self).spec_entity_manager(),
            final(self).spec_processes().spec_processes() == sort_spec(
                old(self).spec_processes().spec_processes(),
            ),
    {
        self.processes.sort();
    }

    /// One tick: every registered process runs once, in dispatch order,
    /// then — only after the last of them has finished — the commit pass
    /// runs, so afterwards nothing is left staged anywhere. There is no
    /// partial commit. Which processes are registered, and in which order,
    /// is untouched; only the processes' own state and the registries
    /// change.
    pub fn update(&mut self)
        requires
            old(self).wf(),
        ensures
            final(self).wf(),
            final(self).spec_processes().spec_processes().len() == old(self).spec_processes().spec_processes().len(),
            forall|j: int|
                0 <= j < old(self).spec_processes().spec_processes().len() ==> (#[trigger] final(self).spec_processes().spec_processes()[j]).0 == old(self).spec_processes().spec_processes()[j].0
                    && final(self).spec_processes().spec_processes()[j].1.0 == old(self).spec_processes().spec_processes()[j].1.0,
            fully_committed(final(self).spec_entity_manager().spec_components()),
    {
        let n = self.processes.len();
        let mut i: usize = 0;
        while i < n
            invariant
                self.processes.wf(),
                self.entity_manager.wf(),
                self.processes.spec_processes().len() == n,
                n == old(self).spec_processes().spec_processes().len(),
                i <= n,
                forall|j: int|
                    0 <= j < n ==> (#[trigger] self.processes.spec_processes()[j]).0 == old(self).spec_processes().spec_processes()[j].0
                        && self.processes.spec_processes()[j].1.0 == old(self).spec_processes().spec_processes()[j].1.0,
            decreases n - i,
        {
            self.processes.run_at(i, &mut self.entity_manager);
            i += 1;
        }
        self.entity_manager.update();
        proof {
            let committed = final(self).spec_entity_manager().spec_components();
            assert forall|k: u64, e: u64|
                committed.spec_managers().contains_key(k) && committed.spec_managers()[k].cells()
                    .contains_key(e) implies (#[trigger] committed.spec_managers()[k].cells()[e]).pending
                is None by {
                assert(committed.spec_managers()[k].cells()[e].pending is None);
            }
        }
    }
}

} // verus!
