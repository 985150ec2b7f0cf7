use ecs::Component;
use ecs::ComponentManager;
use ecs::Components;
use ecs::Entities;
use ecs::Entity;
use ecs::HashMapComponentManager;
use ecs::HashMapManager;

#[derive(Debug, PartialEq, Eq)]
pub struct SomeComponent;

impl Component for SomeComponent {
    type Manager = HashMapManager<SomeComponent>;
    type ComponentManager = HashMapComponentManager<SomeComponent>;
}

#[test]
fn test_entities() {
    let mut entities = Entities::new();
    let entity = entities.create();
    assert!(entities.is_alive(&entity));
    assert!(entities.remove(&entity));
    assert!(!entities.is_alive(&entity));
}

#[test]
fn test_entity_id() {
    let size: usize = 1024;
    let mut entities = Vec::with_capacity(size);
    for _ in 0..size {
        entities.push(Entity::new());
    }
    for i in 0..entities.len() {
        let mut j = 0;
        while j != i {
            assert_ne!(entities[i], entities[j]);
            j += 1;
        }
    }
}

#[test]
fn test_components() {
    let mut components: Components<SomeComponent> = Components::new();
    let mut entities = Entities::new();
    let entity = entities.create();

    components.register(1);
    components.insert(1, entity, SomeComponent).unwrap();

    let component_manager = components.component_manager(1).unwrap();
    assert_eq!(component_manager.get(&entity).unwrap().read(), &SomeComponent);
}

#[test]
fn test_register_replaces_and_unregister_drops() {
    let mut components: Components<SomeComponent> = Components::new();
    let entity = Entity { id: 7 };

    components.register(1);
    components.insert(1, entity, SomeComponent).unwrap();
    components.register(1);
    let manager = components.component_manager(1).unwrap();
    assert!(manager.get(&entity).is_none());

    components.unregister(1);
    assert!(components.component_manager(1).is_err());
}
