use ecs::Component;
use ecs::DoubleBufferedCell;
use ecs::Entity;
use ecs::HashMapComponentManager;
use ecs::HashMapManager;
use ecs::Manager;
use ecs::MaskedManager;
use ecs::VecManager;

#[derive(Debug, PartialEq, Eq, Clone, Copy)]
pub struct Health(pub u64);

impl Component for Health {
    type Manager = HashMapManager<Health>;
    type ComponentManager = HashMapComponentManager<Health>;
}

fn exercise_store<M: Manager<Health>>() {
    let mut store = M::new();
    let a = Entity { id: 1 };
    let b = Entity { id: 2 };

    assert!(store.get(&a).is_none());
    store.insert(a, Health(10));
    assert_eq!(store.get(&a), Some(&Health(10)));
    assert!(store.contains(&a));
    assert!(!store.contains(&b));

    store.insert(a, Health(20));
    assert_eq!(store.get(&a), Some(&Health(20)));

    if let Some(h) = store.get_mut(&a) {
        h.0 += 1;
    }
    assert_eq!(store.get(&a), Some(&Health(21)));

    assert_eq!(store.remove(&a), Some(Health(21)));
    assert!(store.get(&a).is_none());
    assert_eq!(store.remove(&a), None);
    assert_eq!(store.remove(&b), None);

    store.insert(a, Health(1));
    store.insert(b, Health(2));
    store.clear();
    assert!(store.get(&a).is_none());
    assert!(store.get(&b).is_none());
}

#[test]
fn test_insert_get_remove() {
    exercise_store::<HashMapManager<Health>>();
    exercise_store::<VecManager<Health>>();
}

pub enum StoreOp {
    Insert(u64, u64),
    Remove(u64),
    Clear,
}

#[test]
fn test_strategies_differential() {
    let script = vec![
        StoreOp::Insert(1, 10),
        StoreOp::Insert(2, 20),
        StoreOp::Insert(1, 11),
        StoreOp::Remove(3),
        StoreOp::Insert(3, 30),
        StoreOp::Remove(1),
        StoreOp::Insert(4, 40),
        StoreOp::Remove(2),
        StoreOp::Clear,
        StoreOp::Insert(5, 50),
        StoreOp::Insert(6, 60),
        StoreOp::Remove(5),
    ];
    let probes: Vec<u64> = vec![1, 2, 3, 4, 5, 6, 7];

    let mut hash_store: HashMapManager<Health> = Manager::new();
    let mut vec_store: VecManager<Health> = Manager::new();

    for op in script.iter() {
        match op {
            StoreOp::Insert(id, value) => {
                hash_store.insert(Entity { id: *id }, Health(*value));
                vec_store.insert(Entity { id: *id }, Health(*value));
            }
            StoreOp::Remove(id) => {
                let h = hash_store.remove(&Entity { id: *id });
                let v = vec_store.remove(&Entity { id: *id });
                assert_eq!(h, v);
            }
            StoreOp::Clear => {
                hash_store.clear();
                vec_store.clear();
            }
        }
        for id in probes.iter() {
            let probe = Entity { id: *id };
            assert_eq!(hash_store.get(&probe), vec_store.get(&probe));
            assert_eq!(hash_store.contains(&probe), vec_store.contains(&probe));
        }
    }
}

#[test]
fn test_double_buffered_cell() {
    let mut cell = DoubleBufferedCell::new(Health(5));
    assert_eq!(cell.read(), &Health(5));

    cell.stage(Health(7));
    assert_eq!(cell.read(), &Health(5));

    cell.commit();
    assert_eq!(cell.read(), &Health(7));

    cell.commit();
    assert_eq!(cell.read(), &Health(7));

    cell.write(Health(9));
    assert_eq!(cell.read(), &Health(9));

    let h = cell.get_mut();
    h.0 += 1;
    assert_eq!(cell.read(), &Health(10));
    assert_eq!(cell.take(), Health(10));
}

#[test]
fn test_masked_manager() {
    let mut store: MaskedManager<Health> = MaskedManager::new();
    let a = Entity { id: 9 };
    store.insert(a, Health(3));
    assert!(store.contains(&a));
    assert_eq!(store.get(&a), Some(&Health(3)));
    assert_eq!(store.remove(&a), Some(Health(3)));
    assert!(store.get(&a).is_none());
}
