//! A concurrent-runtime core for simulations built from entities, typed
//! components attached to them, and processes that read and write those
//! components once per discrete tick.
//!
//! The crate verifies the functional heart of such a runtime: the entity
//! registry, double-buffered component cells, the two interchangeable
//! component-table strategies, the keyed component registry, the
//! priority-sorted process registry and the tick driver. Thread fan-out and
//! locking live outside the verified core and drive it through these types.

pub mod cell;
pub mod component;
pub mod component_manager;
pub mod components;
pub mod entities;
pub mod entity;
pub mod entity_manager;
pub mod error;
pub mod hierarchy;
pub mod manager;
pub mod process;
pub mod processes;
pub mod scene;
pub mod table;

pub use cell::DoubleBufferedCell;
pub use component::Component;
pub use component_manager::ComponentManager;
pub use component_manager::HashMapComponentManager;
pub use component_manager::VecComponentManager;
pub use component_manager::WrappedComponentManager;
pub use components::Components;
pub use entities::Entities;
pub use entity::Entity;
pub use entity_manager::EntityManager;
pub use error::UsageError;
pub use hierarchy::Hierarchy;
pub use manager::HashMapManager;
pub use manager::Manager;
pub use manager::MaskedManager;
pub use manager::VecManager;
pub use process::Process;
pub use processes::Processes;
pub use scene::Scene;
