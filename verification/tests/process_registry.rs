use std::sync::Arc;
use std::sync::Mutex;

use ecs::Component;
use ecs::ComponentManager;
use ecs::EntityManager;
use ecs::Hierarchy;
use ecs::HashMapComponentManager;
use ecs::HashMapManager;
use ecs::Process;
use ecs::Processes;
use ecs::Scene;
use ecs::UsageError;

#[derive(Debug, PartialEq, Eq)]
pub struct Marker;

impl Component for Marker {
    type Manager = HashMapManager<Marker>;
    type ComponentManager = HashMapComponentManager<Marker>;
}

#[derive(Debug, PartialEq, Eq)]
pub struct SomeProcess;

impl Process for SomeProcess {
    type C = Marker;

    fn run(&mut self, _entity_manager: &mut EntityManager<Marker>) {}

    fn priority(&self) -> usize {
        0
    }
}

#[test]
fn test_process() {
    let mut processes: Processes<SomeProcess> = Processes::new();
    processes.insert(1, SomeProcess).unwrap();

    let process = processes.remove(1).unwrap();
    assert_eq!(process, SomeProcess);
}

#[test]
fn test_duplicate_process_error() {
    let mut processes: Processes<SomeProcess> = Processes::new();
    assert!(processes.insert(1, SomeProcess).is_ok());
    assert_eq!(processes.insert(1, SomeProcess), Err(UsageError::DuplicateProcess));
    assert_eq!(processes.len(), 1);
}

pub struct LogProcess {
    tag: u64,
    priority: usize,
    log: Arc<Mutex<Vec<u64>>>,
}

impl Process for LogProcess {
    type C = Marker;

    fn run(&mut self, _entity_manager: &mut EntityManager<Marker>) {
        self.log.lock().unwrap().push(self.tag);
    }

    fn priority(&self) -> usize {
        self.priority
    }
}

#[test]
fn test_sort_priorities() {
    let log = Arc::new(Mutex::new(Vec::new()));
    let mut scene: Scene<LogProcess> = Scene::new();
    scene
        .processes_mut()
        .insert(10, LogProcess { tag: 10, priority: 5, log: log.clone() })
        .unwrap();
    scene
        .processes_mut()
        .insert(20, LogProcess { tag: 20, priority: 1, log: log.clone() })
        .unwrap();

    scene.init();
    assert_eq!(scene.processes().key_at(0), 20);
    assert_eq!(scene.processes().key_at(1), 10);

    scene.update();
    assert_eq!(*log.lock().unwrap(), vec![20, 10]);
}

pub struct TickProcess {
    priority: usize,
    count: usize,
    done: bool,
}

impl Process for TickProcess {
    type C = Marker;

    fn run(&mut self, entity_manager: &mut EntityManager<Marker>) {
        let _ = entity_manager.create_entity();
        self.count += 1;
        self.done = self.count == 1024;
    }

    fn priority(&self) -> usize {
        self.priority
    }
}

#[test]
fn test_scene() {
    let mut scene: Scene<TickProcess> = Scene::new();

    let mut key: u64 = 0;
    while key < 10 {
        let priority = 9 - key as usize;
        scene
            .processes_mut()
            .insert(key, TickProcess { priority, count: 0, done: false })
            .unwrap();
        key += 1;
    }

    scene.init();

    let mut frame = 0;
    while frame < 1024 {
        scene.update();
        frame += 1;
    }

    let mut checked: u64 = 0;
    while checked < 10 {
        assert!(scene.processes().process(checked).unwrap().done);
        checked += 1;
    }
}

pub struct DoneProcess {
    done: bool,
}

impl Process for DoneProcess {
    type C = Marker;

    fn run(&mut self, _entity_manager: &mut EntityManager<Marker>) {
        self.done = true;
    }
}

#[test]
fn test_process_trait() {
    let mut entity_manager: EntityManager<Marker> = EntityManager::new();
    let mut processes: Processes<DoneProcess> = Processes::new();

    processes.insert(1, DoneProcess { done: false }).unwrap();
    assert_eq!(processes.process(1).unwrap().done, false);

    processes.run_at(0, &mut entity_manager);
    assert_eq!(processes.process(1).unwrap().done, true);

    let process = processes.remove(1).unwrap();
    assert_eq!(process.done, true);
}

pub struct CountEntitiesProcess {
    done: bool,
}

impl Process for CountEntitiesProcess {
    type C = Hierarchy;

    fn run(&mut self, entity_manager: &mut EntityManager<Hierarchy>) {
        let count = entity_manager.components().component_manager(1).unwrap().len();
        self.done = count == 1024;
    }
}

#[test]
fn ecs_test_scene() {
    let mut scene: Scene<CountEntitiesProcess> = Scene::new();
    scene.entity_manager_mut().register_component(1);

    let mut created = 0;
    while created < 1024 {
        let entity = scene.entity_manager_mut().create_entity();
        scene
            .entity_manager_mut()
            .insert_component(1, entity, Hierarchy::new(entity))
            .unwrap();
        created += 1;
    }

    scene.processes_mut().insert(1, CountEntitiesProcess { done: false }).unwrap();
    scene.init();
    scene.update();

    assert!(scene.processes().process(1).unwrap().done);
}
