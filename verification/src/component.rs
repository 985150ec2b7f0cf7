//! The component capability.

use vstd::prelude::*;

use crate::component_manager::ComponentManager;
use crate::manager::Manager;

verus! {

/// A typed value of application data attachable to at most one entity.
/// Each component type picks its storage strategies: a plain-value store
/// and a double-buffered store, either hash-indexed or vector-indexed.
pub trait Component: Sized {
    /// The plain-value store strategy for this component type.
    type Manager: Manager<Self>;

    /// The double-buffered store strategy for this component type, the one
    /// the component registry keeps per registered type.
    type ComponentManager: ComponentManager<Self>;
}

} // verus!
