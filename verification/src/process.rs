//! The process capability.

use vstd::prelude::*;

use crate::component::Component;
use crate::entity_manager::EntityManager;

verus! {

/// A unit of per-tick logic with a declared scheduling priority; lower
/// priorities are dispatched first. The business logic inside `run` is the
/// process author's and is unconstrained here beyond keeping the registries
/// well-formed, which every registry operation does on its own.
pub trait Process: Sized {
    /// The component sum type of the simulation this process belongs to.
    type C: Component;

    /// One tick's worth of work over the entity and component registries.
    fn run(&mut self, entity_manager: &mut EntityManager<Self::C>)
        requires
            old(entity_manager).wf(),
        ensures
            final(entity_manager).wf(),
    ;

    /// The declared priority; lower sorts first, and 0 is the default. The
    /// registry reads it once, at registration, and dispatches by the value
    /// read there.
    fn priority(&self) -> usize {
        0
    }
}

} // verus!
