use event_system::event_manager::AddSystemError;
use event_system::maps::{CompatibilityMap, EventSystemMap, EventToHandlersMap, HandlerMap};
use event_system::{
    depends_on, depends_on_mutably, find_dependency, Dependency, EventHandler, EventManager,
};

const A: u64 = 1;
const B: u64 = 2;
const C: u64 = 3;
const D: u64 = 4;
const E1: u64 = 100;
const E2: u64 = 200;

fn h(system: u64, event: u64) -> EventHandler {
    EventHandler::new(system, event)
}

fn manager() -> EventManager<&'static str, u32, ()> {
    EventManager::new_with_execution_manager(())
}

#[test]
fn dependency_keeps_type_and_mutability() {
    let d = Dependency::new(7, true);
    assert_eq!(d.type_id, 7);
    assert!(d.mutable);
    let r = Dependency::new(9, false);
    assert_eq!(r.type_id, 9);
    assert!(!r.mutable);
}

#[test]
fn dependency_queries() {
    let deps = vec![
        Dependency::new(A, false),
        Dependency::new(B, true),
        Dependency::new(A, true),
    ];
    assert!(depends_on(&deps, A));
    assert!(depends_on(&deps, B));
    assert!(!depends_on(&deps, C));
    assert!(depends_on_mutably(&deps, A));
    assert!(depends_on_mutably(&deps, B));
    assert!(!depends_on_mutably(&vec![Dependency::new(A, false)], A));
    // the first entry for a system counts
    assert_eq!(find_dependency(&deps, A), Some(Dependency::new(A, false)));
    assert_eq!(find_dependency(&deps, C), None);
}

#[test]
fn event_handler_ids() {
    let x = h(A, E1);
    assert_eq!(x.event_system_type_id(), A);
    assert_eq!(x.event_type_id(), E1);
}

#[test]
fn event_to_handlers_keeps_registration_order() {
    let mut m = EventToHandlersMap::new();
    assert!(m.get(&E1).is_none());
    m.push(h(A, E1));
    m.push(h(B, E2));
    m.push(h(C, E1));
    m.push(h(B, E1));
    assert_eq!(m.get(&E1).unwrap(), &vec![h(A, E1), h(C, E1), h(B, E1)]);
    assert_eq!(m.get(&E2).unwrap(), &vec![h(B, E2)]);
    m.remove_event_system(&B);
    assert_eq!(m.get(&E1).unwrap(), &vec![h(A, E1), h(C, E1)]);
    // the event type stays known, with no handlers left
    assert_eq!(m.get(&E2).unwrap(), &Vec::<EventHandler>::new());
}

#[test]
fn handler_map_insert_get_remove() {
    let mut m: HandlerMap<u32> = HandlerMap::new();
    assert_eq!(m.insert(h(A, E1), 10), None);
    assert_eq!(m.insert(h(A, E2), 11), None);
    assert_eq!(m.insert(h(B, E1), 12), None);
    assert_eq!(m.insert(h(A, E1), 13), Some(10));
    assert_eq!(m.get(A, E1), Some(&13));
    assert_eq!(m.len(), 3);
    assert!(m.contains(B, E1));
    m.remove_event_system(&A);
    assert_eq!(m.get(A, E1), None);
    assert_eq!(m.get(A, E2), None);
    assert_eq!(m.get(B, E1), Some(&12));
    assert_eq!(m.len(), 1);
}

#[test]
fn event_system_map_insert_get_remove() {
    let mut m: EventSystemMap<&'static str> = EventSystemMap::new();
    assert!(m.insert(A, "a", vec![Dependency::new(B, false)]).is_none());
    assert!(m.contains(&A));
    assert_eq!(m.get(&A), Some(&"a"));
    assert_eq!(m.get_raw(&A).unwrap().dependencies, vec![Dependency::new(B, false)]);
    let previous = m.insert(A, "a2", vec![]).unwrap();
    assert_eq!(previous.event_system, "a");
    assert_eq!(m.get(&A), Some(&"a2"));
    assert_eq!(m.remove(&A).unwrap().event_system, "a2");
    assert!(!m.contains(&A));
    assert!(m.remove(&A).is_none());
}

#[test]
fn compatibility_rules() {
    let mut systems: EventSystemMap<()> = EventSystemMap::new();
    // A writes D, B reads D, C reads D, and E1 (as a system) depends on A
    systems.insert(A, (), vec![Dependency::new(D, true)]);
    systems.insert(B, (), vec![Dependency::new(D, false)]);
    systems.insert(C, (), vec![Dependency::new(D, false)]);
    systems.insert(E1, (), vec![Dependency::new(A, false)]);
    let mut c = CompatibilityMap::new();
    c.insert(A, &vec![Dependency::new(D, true)], &systems);
    c.insert(B, &vec![Dependency::new(D, false)], &systems);
    c.insert(C, &vec![Dependency::new(D, false)], &systems);
    c.insert(E1, &vec![Dependency::new(A, false)], &systems);
    assert!(c.is_compatible(A, A));
    assert!(!c.is_compatible(A, B)); // shared dependency held mutably
    assert!(c.is_compatible(B, C)); // shared dependency only read
    assert!(c.is_compatible(C, B));
    assert!(!c.is_compatible(A, E1)); // one depends on the other
    assert!(c.is_compatible(B, E1));
    c.remove(&B);
    assert!(!c.is_compatible(B, C));
    assert!(!c.is_compatible(B, B));
    assert!(c.is_compatible(C, C));
}

#[test]
fn compatibility_is_symmetric() {
    let mut systems: EventSystemMap<()> = EventSystemMap::new();
    systems.insert(A, (), vec![]);
    systems.insert(B, (), vec![]);
    let mut c = CompatibilityMap::new();
    c.insert(B, &vec![], &systems);
    for (x, y) in [(A, B), (A, A), (B, B), (A, C)] {
        assert_eq!(c.is_compatible(x, y), c.is_compatible(y, x));
    }
    assert!(c.is_compatible(A, B));
}

#[test]
fn add_system_registers_everything() {
    let mut m = manager();
    assert!(!m.contains_system(A));
    assert_eq!(
        m.try_add_system(A, "a", vec![Dependency::new(D, false)], vec![(h(A, E1), 1), (h(A, E2), 2)]),
        Ok(())
    );
    assert!(m.contains_system(A));
    assert_eq!(m.get(A), Some(&"a"));
    assert_eq!(m.handler(&h(A, E1)), Some(&1));
    assert_eq!(m.handler(&h(A, E2)), Some(&2));
    assert!(m.is_compatible(A, A));
    assert_eq!(
        m.try_add_system(B, "b", vec![Dependency::new(D, false)], vec![(h(B, E1), 3)]),
        Ok(())
    );
    assert!(m.is_compatible(A, B));
    assert_eq!(m.try_add_system(C, "c", vec![Dependency::new(D, true)], vec![]), Ok(()));
    assert!(!m.is_compatible(C, A));
    assert!(!m.is_compatible(B, C));
}

#[test]
fn add_system_refuses_duplicates() {
    let mut m = manager();
    assert_eq!(m.try_add_system(A, "a", vec![], vec![(h(A, E1), 1)]), Ok(()));
    assert_eq!(
        m.try_add_system(A, "again", vec![], vec![]),
        Err(AddSystemError::DuplicateEventSystem)
    );
    assert_eq!(m.get(A), Some(&"a"));
    // a handler registered already
    assert_eq!(
        m.try_add_system(B, "b", vec![], vec![(h(A, E1), 2)]),
        Err(AddSystemError::DuplicateEventHandler)
    );
    assert!(!m.contains_system(B));
    // a handler given twice
    assert_eq!(
        m.try_add_system(B, "b", vec![], vec![(h(B, E1), 2), (h(B, E1), 3)]),
        Err(AddSystemError::DuplicateEventHandler)
    );
    assert!(!m.contains_system(B));
    assert_eq!(m.handler(&h(A, E1)), Some(&1));
}

#[test]
fn remove_system_forgets_it() {
    let mut m = manager();
    m.add_system(A, "a", vec![], vec![(h(A, E1), 1)]);
    m.add_system(B, "b", vec![], vec![(h(B, E1), 2)]);
    assert!(m.is_compatible(A, B));
    m.remove_system(A);
    assert!(!m.contains_system(A));
    assert_eq!(m.get(A), None);
    assert_eq!(m.handler(&h(A, E1)), None);
    assert!(!m.is_compatible(A, B));
    assert!(!m.is_compatible(A, A));
    assert_eq!(m.event_order(E1).unwrap(), vec![h(B, E1)]);
    // removing a system that is not there changes nothing
    m.remove_system(C);
    assert!(m.contains_system(B));
}

#[test]
fn remove_undoes_add() {
    let mut m = manager();
    m.add_system(B, "b", vec![], vec![(h(B, E1), 2)]);
    m.add_system(A, "a", vec![Dependency::new(B, false)], vec![(h(A, E1), 1), (h(A, E2), 3)]);
    m.remove_system(A);
    assert!(m.contains_system(B));
    assert!(!m.contains_system(A));
    assert_eq!(m.event_order(E1).unwrap(), vec![h(B, E1)]);
    assert_eq!(m.event_order(E2).unwrap(), Vec::<EventHandler>::new());
    assert!(m.is_compatible(B, B));
    assert!(!m.is_compatible(A, B));
}

#[test]
fn execution_manager_can_be_replaced() {
    let mut m: EventManager<(), (), u32> = EventManager::new_with_execution_manager(5);
    assert_eq!(*m.execution_manager(), 5);
    *m.execution_manager() += 1;
    assert_eq!(*m.execution_manager(), 6);
    m.set_execution_manager(9);
    assert_eq!(*m.execution_manager(), 9);
}

#[test]
fn duplicate_handlers_are_found() {
    let mut m = manager();
    m.add_system(A, "a", vec![], vec![(h(A, E1), 1)]);
    assert!(m.has_duplicate_handler(&vec![(h(A, E1), 2)]));
    assert!(m.has_duplicate_handler(&vec![(h(B, E1), 2), (h(B, E1), 3)]));
    assert!(!m.has_duplicate_handler(&vec![(h(B, E1), 2), (h(B, E2), 3)]));
    assert!(!m.has_duplicate_handler(&vec![]));
}
