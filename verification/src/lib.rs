use vstd::prelude::*;

pub mod event_handler;
pub mod keyed;
pub mod maps;
pub mod event_manager;
pub mod schedule;
pub mod util;

pub use event_handler::EventHandler;
pub use event_manager::EventManager;

verus! {

/// A system that another system reads (or, when `mutable`, writes) while it handles events.
#[derive(Clone, Copy, PartialEq, Eq, Structural, Debug)]
pub struct Dependency {
    pub type_id: u64,
    pub mutable: bool,
}

impl Dependency {
    pub fn new(type_id: u64, mutable: bool) -> (d: Self)
        ensures
            d.type_id == type_id,
            d.mutable == mutable,
    {
        Dependency { type_id, mutable }
    }
}

/// One run of a handler: the handler, and the position of its event in the batch.
#[derive(Clone, Copy, PartialEq, Eq, Structural, Debug)]
pub struct EventHandlerExecution {
    pub event_handler: EventHandler,
    pub event: usize,
}

/// The executions that one event system runs within a level, in order.
pub struct EventSystemExecutionPackage {
    pub event_system: u64,
    pub executions: Vec<EventHandlerExecution>,
}

/// Some dependency in `deps` is on the system `type_id`.
pub open spec fn spec_depends_on(deps: Seq<Dependency>, type_id: u64) -> bool {
    exists|j: int| 0 <= j < deps.len() && (#[trigger] deps[j]).type_id == type_id
}

/// Some dependency in `deps` is a mutable one on the system `type_id`.
pub open spec fn spec_depends_on_mutably(deps: Seq<Dependency>, type_id: u64) -> bool {
    exists|j: int| 0 <= j < deps.len() && (#[trigger] deps[j]).type_id == type_id && deps[j].mutable
}

/// The first dependency in `deps` on the system `type_id`, if any.
pub open spec fn first_dependency(deps: Seq<Dependency>, type_id: u64) -> Option<Dependency>
    decreases deps.len(),
{
    if deps.len() == 0 {
        None
    } else if deps[0].type_id == type_id {
        Some(deps[0])
    } else {
        first_dependency(deps.drop_first(), type_id)
    }
}

/// Whether `deps` names the system `type_id`.
pub fn depends_on(deps: &Vec<Dependency>, type_id: u64) -> (b: bool)
    ensures
        b == spec_depends_on(deps@, type_id),
{
    let mut i: usize = 0;
    while i < deps.len()
        invariant
            i <= deps@.len(),
            forall|j: int| 0 <= j < i ==> (#[trigger] deps@[j]).type_id != type_id,
        decreases deps@.len() - i,
    {
        if deps[i].type_id == type_id {
            return true;
        }
        i = i + 1;
    }
    false
}

/// Whether `deps` names the system `type_id` as a mutable dependency.
pub fn depends_on_mutably(deps: &Vec<Dependency>, type_id: u64) -> (b: bool)
    ensures
        b == spec_depends_on_mutably(deps@, type_id),
{
    let mut i: usize = 0;
    while i < deps.len()
        invariant
            i <= deps@.len(),
            forall|j: int|
                0 <= j < i ==> !((#[trigger] deps@[j]).type_id == type_id && deps@[j].mutable),
        decreases deps@.len() - i,
    {
        if deps[i].type_id == type_id && deps[i].mutable {
            return true;
        }
        i = i + 1;
    }
    false
}

proof fn lemma_first_dependency_skip(deps: Seq<Dependency>, type_id: u64, i: int)
    requires
        0 <= i < deps.len(),
        deps[i].type_id != type_id,
    ensures
        first_dependency(deps.skip(i), type_id) == first_dependency(deps.skip(i + 1), type_id),
{
    assert(deps.skip(i).drop_first() =~= deps.skip(i + 1));
}

/// The first dependency in `deps` on the system `type_id`.
pub fn find_dependency(deps: &Vec<Dependency>, type_id: u64) -> (r: Option<Dependency>)
    ensures
        r == first_dependency(deps@, type_id),
{
    let mut i: usize = 0;
    assert(deps@.skip(0) =~= deps@);
    while i < deps.len()
        invariant
            i <= deps@.len(),
            first_dependency(deps@.skip(i as int), type_id) == first_dependency(deps@, type_id),
        decreases deps@.len() - i,
    {
        if deps[i].type_id == type_id {
            assert(deps@.skip(i as int)[0] == deps@[i as int]);
            return Some(deps[i]);
        }
        proof {
            lemma_first_dependency_skip(deps@, type_id, i as int);
        }
        i = i + 1;
    }
    assert(deps@.skip(i as int).len() == 0);
    None
}

} // verus!
