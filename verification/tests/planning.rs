use event_system::event_manager::{
    execution_packages, split_delayed, CommandAgenda, FlushAction, FlushPhase, FlushState,
};
use event_system::schedule::PlanError;
use event_system::{Dependency, EventHandler, EventHandlerExecution, EventManager};

const A: u64 = 1;
const B: u64 = 2;
const C: u64 = 3;
const D: u64 = 4;
const E1: u64 = 100;
const E2: u64 = 200;

fn h(system: u64, event: u64) -> EventHandler {
    EventHandler::new(system, event)
}

fn x(system: u64, event: u64, index: usize) -> EventHandlerExecution {
    EventHandlerExecution { event_handler: h(system, event), event: index }
}

fn manager() -> EventManager<(), (), ()> {
    EventManager::new_with_execution_manager(())
}

#[test]
fn handlers_run_after_their_dependencies() {
    let mut m = manager();
    // A is registered first but waits for B, which waits for C
    m.add_system(A, (), vec![Dependency::new(B, false)], vec![(h(A, E1), ())]);
    m.add_system(B, (), vec![Dependency::new(C, false)], vec![(h(B, E1), ())]);
    m.add_system(C, (), vec![], vec![(h(C, E1), ()), (h(C, E2), ())]);
    assert_eq!(m.event_order(E1).unwrap(), vec![h(C, E1), h(B, E1), h(A, E1)]);
    // A waits for B, but B has no handler for E2, so only C's runs
    assert_eq!(m.event_order(E2).unwrap(), vec![h(C, E2)]);
    // an event nobody handles
    assert_eq!(m.event_order(999).unwrap(), Vec::<EventHandler>::new());
}

#[test]
fn each_handler_runs_once_per_event() {
    let mut m = manager();
    m.add_system(C, (), vec![], vec![(h(C, E1), ())]);
    m.add_system(A, (), vec![Dependency::new(C, false)], vec![(h(A, E1), ())]);
    m.add_system(B, (), vec![Dependency::new(C, true)], vec![(h(B, E1), ())]);
    assert_eq!(m.event_order(E1).unwrap(), vec![h(C, E1), h(A, E1), h(B, E1)]);
}

#[test]
fn linear_execution_follows_the_batch() {
    let mut m = manager();
    m.add_system(A, (), vec![Dependency::new(B, false)], vec![(h(A, E1), ())]);
    m.add_system(B, (), vec![], vec![(h(B, E1), ()), (h(B, E2), ())]);
    let plan = m.linear_execution(&vec![E1, E2, 999, E1]).unwrap();
    assert_eq!(
        plan,
        vec![x(B, E1, 0), x(A, E1, 0), x(B, E2, 1), x(B, E1, 3), x(A, E1, 3)]
    );
    assert_eq!(m.linear_execution(&vec![]).unwrap(), vec![]);
}

#[test]
fn dependency_cycle_is_refused() {
    let mut m = manager();
    m.add_system(A, (), vec![Dependency::new(B, false)], vec![(h(A, E1), ())]);
    m.add_system(B, (), vec![Dependency::new(A, false)], vec![(h(B, E1), ()), (h(B, E2), ())]);
    assert_eq!(m.event_order(E1), Err(PlanError::DependencyCycle));
    // E2 is handled by B alone: A has no handler for it
    assert_eq!(m.event_order(E2).unwrap(), vec![h(B, E2)]);
    assert_eq!(m.linear_execution(&vec![E2, E1]), Err(PlanError::DependencyCycle));
}

#[test]
fn handler_of_an_unregistered_system_is_refused() {
    let mut m = manager();
    // A brings a handler that belongs to D, which is never registered
    m.add_system(A, (), vec![], vec![(h(A, E1), ()), (h(D, E1), ())]);
    assert_eq!(m.event_order(E1), Err(PlanError::MissingEventSystem(D)));
    assert_eq!(m.linear_execution(&vec![E2, E1]), Err(PlanError::MissingEventSystem(D)));
}

#[test]
fn levels_split_where_systems_conflict() {
    let mut m = manager();
    m.add_system(A, (), vec![Dependency::new(D, true)], vec![]);
    m.add_system(B, (), vec![Dependency::new(D, false)], vec![]);
    m.add_system(C, (), vec![Dependency::new(D, false)], vec![]);
    let exec = vec![x(B, E1, 0), x(C, E1, 0), x(A, E1, 0), x(A, E2, 1), x(B, E2, 1)];
    let levels = m.parallel_execution(&exec);
    assert_eq!(
        levels,
        vec![
            vec![x(B, E1, 0), x(C, E1, 0)],
            vec![x(A, E1, 0), x(A, E2, 1)],
            vec![x(B, E2, 1)],
        ]
    );
    assert_eq!(m.parallel_execution(&vec![]), vec![Vec::<EventHandlerExecution>::new()]);
    assert_eq!(m.parallel_execution(&vec![x(A, E1, 0)]), vec![vec![x(A, E1, 0)]]);
}

#[test]
fn levels_keep_every_execution_in_order() {
    let mut m = manager();
    m.add_system(A, (), vec![], vec![]);
    m.add_system(B, (), vec![Dependency::new(A, true)], vec![]);
    let exec = vec![x(A, E1, 0), x(B, E1, 0), x(A, E1, 1), x(A, E2, 2), x(B, E2, 3)];
    let levels = m.parallel_execution(&exec);
    let joined: Vec<EventHandlerExecution> = levels.iter().flatten().copied().collect();
    assert_eq!(joined, exec);
    assert_eq!(levels.len(), 4);
}

#[test]
fn packages_group_by_system_in_first_appearance_order() {
    let level = vec![x(B, E1, 0), x(A, E1, 0), x(B, E2, 1), x(C, E1, 2), x(A, E2, 3)];
    let packages = execution_packages(&level);
    let systems: Vec<u64> = packages.iter().map(|p| p.event_system).collect();
    assert_eq!(systems, vec![B, A, C]);
    assert_eq!(packages[0].executions, vec![x(B, E1, 0), x(B, E2, 1)]);
    assert_eq!(packages[1].executions, vec![x(A, E1, 0), x(A, E2, 3)]);
    assert_eq!(packages[2].executions, vec![x(C, E1, 2)]);
    assert!(execution_packages(&vec![]).is_empty());
}

fn run_flush(counts: &[usize]) -> (usize, Vec<bool>) {
    let (mut state, mut action) = FlushState::start();
    let mut passes = Vec::new();
    let mut i = 0;
    loop {
        match action {
            FlushAction::Pass(in_progress) => {
                passes.push(in_progress);
                let (s, a) = state.next(counts[i]);
                i += 1;
                state = s;
                action = a;
            }
            FlushAction::Finish(n) => {
                assert_eq!(state.phase, FlushPhase::Finished);
                return (n, passes);
            }
        }
    }
}

#[test]
fn flush_with_nothing_to_do_makes_two_passes() {
    assert_eq!(run_flush(&[0, 0]), (2, vec![true, false]));
}

#[test]
fn flush_drains_in_progress_then_queued_then_in_progress() {
    assert_eq!(
        run_flush(&[3, 1, 0, 2, 5, 0]),
        (6, vec![true, true, true, false, true, true])
    );
    assert_eq!(run_flush(&[0, 4, 0]), (3, vec![true, false, true]));
}

#[test]
fn finished_flush_stays_finished() {
    let done = FlushState { phase: FlushPhase::Finished, passes: 4 };
    assert_eq!(done.next(7), (done, FlushAction::Finish(4)));
    assert_eq!(done.next(0), (done, FlushAction::Finish(4)));
}

#[test]
fn systems_that_bring_only_their_own_handlers_always_get_an_order() {
    let mut m = manager();
    m.add_system(A, (), vec![Dependency::new(B, false)], vec![(h(A, E1), ()), (h(A, E2), ())]);
    m.add_system(B, (), vec![Dependency::new(D, true)], vec![(h(B, E1), ())]);
    m.add_system(C, (), vec![Dependency::new(A, false)], vec![(h(C, E2), ())]);
    assert!(m.linear_execution(&vec![E1, E2, E1, 999]).is_ok());
    // removing the system others wait for leaves a registry that still plans
    m.remove_system(B);
    assert_eq!(m.event_order(E1).unwrap(), vec![h(A, E1)]);
    assert_eq!(
        m.linear_execution(&vec![E2, E1]).unwrap(),
        vec![x(A, E2, 0), x(C, E2, 0), x(A, E1, 1)]
    );
}

#[test]
fn levels_compare_only_neighbouring_executions() {
    let mut m = manager();
    // A and C both write D; B depends on nothing
    m.add_system(A, (), vec![Dependency::new(D, true)], vec![]);
    m.add_system(B, (), vec![], vec![]);
    m.add_system(C, (), vec![Dependency::new(D, true)], vec![]);
    assert!(!m.is_compatible(A, C));
    let exec = vec![x(A, E1, 0), x(B, E1, 0), x(C, E1, 0)];
    // A and C are never next to each other, so no level is cut
    assert_eq!(m.parallel_execution(&exec), vec![exec.clone()]);
}

#[test]
fn delayed_events_are_set_apart() {
    let (now, later) = split_delayed(&vec![false, true, false, false, true]);
    assert_eq!(now, vec![0, 2, 3]);
    assert_eq!(later, vec![1, 4]);
    let (now, later) = split_delayed(&vec![]);
    assert!(now.is_empty() && later.is_empty());
}

#[test]
fn issued_commands_run_before_the_rest_of_their_batch() {
    let mut agenda: CommandAgenda<&str> = CommandAgenda::new();
    agenda.push_batch(vec!["a", "b"]);
    let mut order = Vec::new();
    while let Some(c) = agenda.next() {
        order.push(c);
        // "a" issues "a1" and "a2"; "a1" issues "a1x"
        let issued = match c {
            "a" => vec!["a1", "a2"],
            "a1" => vec!["a1x"],
            _ => vec![],
        };
        agenda.push_batch(issued);
    }
    assert_eq!(order, vec!["a", "a1", "a1x", "a2", "b"]);
}
