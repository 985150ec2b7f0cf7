use std::sync::mpsc;
use std::sync::Arc;
use std::sync::Mutex;

use thread_pool::TaskBox;
use thread_pool::ThreadPool;

use ecs::Component;
use ecs::ComponentManager;
use ecs::Entity;
use ecs::EntityManager;
use ecs::HashMapComponentManager;
use ecs::HashMapManager;
use ecs::Process;
use ecs::Scene;
use ecs::UsageError;

const COUNTER_KEY: u64 = 1;

#[derive(Debug, PartialEq, Eq, Clone, Copy)]
pub struct Counter(pub u64);

impl Component for Counter {
    type Manager = HashMapManager<Counter>;
    type ComponentManager = HashMapComponentManager<Counter>;
}

pub struct IncrementProcess {
    entity: Entity,
}

impl Process for IncrementProcess {
    type C = Counter;

    fn run(&mut self, entity_manager: &mut EntityManager<Counter>) {
        let manager = entity_manager.components_mut().component_manager_mut(COUNTER_KEY).unwrap();
        let counter = manager.get_mut(&self.entity).unwrap();
        counter.0 += 1;
    }

    fn priority(&self) -> usize {
        0
    }
}

fn counter_value(entity_manager: &EntityManager<Counter>, entity: &Entity) -> Counter {
    *entity_manager
        .components()
        .component_manager(COUNTER_KEY)
        .unwrap()
        .get(entity)
        .unwrap()
        .read()
}

#[test]
fn test_counter_ticks() {
    let mut scene: Scene<IncrementProcess> = Scene::new();
    scene.entity_manager_mut().register_component(COUNTER_KEY);
    let entity = scene.entity_manager_mut().create_entity();
    scene.entity_manager_mut().insert_component(COUNTER_KEY, entity, Counter(0)).unwrap();

    let processes: u64 = 8;
    let mut key: u64 = 0;
    while key < processes {
        scene.processes_mut().insert(key, IncrementProcess { entity }).unwrap();
        key += 1;
    }
    scene.init();

    let ticks: u64 = 16;
    let mut tick: u64 = 0;
    while tick < ticks {
        scene.update();
        tick += 1;
    }

    assert_eq!(counter_value(scene.entity_manager(), &entity), Counter(ticks * processes));
}

#[test]
fn test_concurrent_counter() {
    let (sender, pool) = ThreadPool::<Box<dyn TaskBox>>::fixed_size(4);
    let entity_manager = Arc::new(Mutex::new(EntityManager::<Counter>::new()));
    let entity;
    {
        let mut em = entity_manager.lock().unwrap();
        em.register_component(COUNTER_KEY);
        entity = em.create_entity();
        em.insert_component(COUNTER_KEY, entity, Counter(0)).unwrap();
    }

    let ticks: u64 = 8;
    let per_tick: u64 = 8;
    let mut tick: u64 = 0;
    while tick < ticks {
        let (tx, rx) = mpsc::channel();
        let mut spawned: u64 = 0;
        while spawned < per_tick {
            let em = entity_manager.clone();
            let done = tx.clone();
            sender
                .send_fn(move || {
                    let mut em = em.lock().unwrap();
                    let manager =
                        em.components_mut().component_manager_mut(COUNTER_KEY).unwrap();
                    let counter = manager.get_mut(&entity).unwrap();
                    counter.0 += 1;
                    drop(em);
                    let _ = done.send(());
                })
                .unwrap();
            spawned += 1;
        }
        drop(tx);
        let mut finished: u64 = 0;
        while finished < per_tick {
            rx.recv().unwrap();
            finished += 1;
        }
        entity_manager.lock().unwrap().update();
        tick += 1;
    }

    let em = entity_manager.lock().unwrap();
    assert_eq!(counter_value(&em, &entity), Counter(ticks * per_tick));
    drop(em);
    pool.shutdown();
}

#[test]
fn test_staged_write_visibility() {
    let mut entity_manager: EntityManager<Counter> = EntityManager::new();
    entity_manager.register_component(COUNTER_KEY);
    let entity = entity_manager.create_entity();
    entity_manager.insert_component(COUNTER_KEY, entity, Counter(1)).unwrap();

    let manager = entity_manager.components_mut().component_manager_mut(COUNTER_KEY).unwrap();
    assert!(manager.stage(&entity, Counter(5)));

    assert_eq!(counter_value(&entity_manager, &entity), Counter(1));

    entity_manager.update();
    assert_eq!(counter_value(&entity_manager, &entity), Counter(5));

    entity_manager.update();
    assert_eq!(counter_value(&entity_manager, &entity), Counter(5));
}

#[test]
fn test_unregistered_component_error() {
    let mut entity_manager: EntityManager<Counter> = EntityManager::new();
    let entity = entity_manager.create_entity();

    assert_eq!(
        entity_manager.insert_component(9, entity, Counter(0)),
        Err(UsageError::UnregisteredComponent)
    );
    assert_eq!(entity_manager.remove_component(9, &entity), Err(UsageError::UnregisteredComponent));

    entity_manager.register_component(9);
    assert_eq!(entity_manager.remove_component(9, &entity), Ok(None));
    assert_eq!(entity_manager.insert_component(9, entity, Counter(3)), Ok(()));
    assert_eq!(entity_manager.remove_component(9, &entity), Ok(Some(Counter(3))));
}
