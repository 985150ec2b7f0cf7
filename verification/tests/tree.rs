use ecs::ComponentManager;
use ecs::Entity;
use ecs::Hierarchy;
use ecs::WrappedComponentManager;

fn depth_of(manager: &WrappedComponentManager<Hierarchy>, entity: &Entity) -> usize {
    manager.get(entity).unwrap().read().depth()
}

#[test]
fn test_hierarchy_chain() {
    let size: usize = 1000;
    let mut manager: WrappedComponentManager<Hierarchy> = ComponentManager::new();
    let mut entities = Vec::with_capacity(size);
    let mut id: u64 = 0;
    while (id as usize) < size {
        let entity = Entity { id };
        entities.push(entity);
        manager.insert(entity, Hierarchy::new(entity));
        id += 1;
    }

    let mut i = 0;
    while i + 1 < size {
        Hierarchy::add_child(&mut manager, &entities[i], &entities[i + 1]);
        i += 1;
    }

    let mut j = 0;
    while j < size {
        assert_eq!(depth_of(&manager, &entities[j]), j);
        j += 1;
    }

    Hierarchy::remove_child(&mut manager, &entities[0], &entities[1]);

    assert_eq!(depth_of(&manager, &entities[0]), 0);
    assert!(manager.get(&entities[0]).unwrap().read().children().is_empty());
    assert_eq!(depth_of(&manager, &entities[1]), 0);
    assert!(manager.get(&entities[1]).unwrap().read().parent().is_none());

    let mut k = 1;
    while k < size {
        assert_eq!(depth_of(&manager, &entities[k]), k - 1);
        k += 1;
    }
}

#[test]
fn test_add_child_guards() {
    let mut manager: WrappedComponentManager<Hierarchy> = ComponentManager::new();
    let a = Entity { id: 1 };
    let b = Entity { id: 2 };
    manager.insert(a, Hierarchy::new(a));
    manager.insert(b, Hierarchy::new(b));

    Hierarchy::add_child(&mut manager, &a, &a);
    assert!(manager.get(&a).unwrap().read().children().is_empty());

    Hierarchy::add_child(&mut manager, &a, &b);
    Hierarchy::add_child(&mut manager, &a, &b);
    assert_eq!(manager.get(&a).unwrap().read().children().len(), 1);
    assert_eq!(manager.get(&b).unwrap().read().parent(), Some(a));
    assert_eq!(depth_of(&manager, &b), 1);
}
