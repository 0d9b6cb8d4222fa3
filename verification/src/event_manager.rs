use vstd::prelude::*;

use crate::event_handler::EventHandler;
use crate::maps::{
    CompatibilityMap,
    EventSystemMap,
    EventToHandlersMap,
    HandlerMap,
    TypeErasedEventSystem,
    dependency_view,
    new_compatibilities,
    not_of_system,
    pair_avoids,
};
use crate::schedule::{
    HandlerGraph,
    PlanError,
    event_order,
    executions_for,
    levels,
    linear_execution_spec,
    of_system_execution,
    reports_missing_system,
    systems_known,
    visit,
    visit_all,
    visit_dependencies,
};
use crate::{Dependency, EventHandlerExecution, EventSystemExecutionPackage};

verus! {

/// Why registering an event system was refused.
#[derive(Clone, Copy, PartialEq, Eq, Structural, Debug)]
pub enum AddSystemError {
    /// A system of the same type is registered already.
    DuplicateEventSystem,
    /// One of the handlers is registered already, or is given twice.
    DuplicateEventHandler,
}

/// The registry of event systems and their handlers, with the pairs of systems that may
/// handle events at the same time, and the execution manager that runs handlers.
pub struct EventManager<T, H, M> {
    event_to_handlers_map: EventToHandlersMap,
    handler_map: HandlerMap<H>,
    compatibility_map: CompatibilityMap,
    event_system_map: EventSystemMap<T>,
    execution_manager: M,
}

/// The handlers in `hs` belong to distinct (system, event) pairs.
pub open spec fn distinct_handlers<H>(hs: Seq<(EventHandler, H)>) -> bool {
    forall|i: int, j: int| 0 <= i < j < hs.len() ==> (#[trigger] hs[i]).0 != (#[trigger] hs[j]).0
}

/// Some handler in `hs` is the handler `h`.
pub open spec fn lists_handler<H>(hs: Seq<(EventHandler, H)>, h: EventHandler) -> bool {
    exists|i: int| 0 <= i < hs.len() && (#[trigger] hs[i]).0 == h
}

/// The handlers of `hs`, without what runs them.
pub open spec fn handler_keys<H>(hs: Seq<(EventHandler, H)>) -> Seq<EventHandler> {
    hs.map_values(|p: (EventHandler, H)| p.0)
}

/// Once the system `type_id` is unregistered, none of its handlers is listed for an event or
/// registered.
pub proof fn lemma_unregistered_handlers_gone<H>(
    handlers: Map<u64, Seq<EventHandler>>,
    runs: Map<EventHandler, H>,
    type_id: u64,
    handlers_after: Map<u64, Seq<EventHandler>>,
    runs_after: Map<EventHandler, H>,
)
    requires
        handlers_after == handlers.map_values(|hs: Seq<EventHandler>| hs.filter(not_of_system(type_id))),
        runs_after == runs.restrict(runs.dom().filter(not_of_system(type_id))),
    ensures
        forall|e: u64, i: int|
            handlers_after.contains_key(e) && 0 <= i < handlers_after[e].len()
                ==> (#[trigger] handlers_after[e][i]).event_system_type_id != type_id,
        forall|h: EventHandler| #[trigger] runs_after.contains_key(h) ==> h.event_system_type_id != type_id,
{
    assert forall|e: u64, i: int|
        handlers_after.contains_key(e) && 0 <= i < handlers_after[e].len()
            implies (#[trigger] handlers_after[e][i]).event_system_type_id != type_id by {
        handlers[e].lemma_filter_pred(not_of_system(type_id), i);
    }
}

/// Unregistering a system right after registering it, when nothing of it was registered
/// before and all the handlers it came with are its own, gives back the registry as it was:
/// the same systems, handlers and compatibilities, and the same handlers for every event.
pub proof fn lemma_remove_undoes_add<T, H, M>(
    before: EventManager<T, H, M>,
    added: EventManager<T, H, M>,
    removed: EventManager<T, H, M>,
    type_id: u64,
    entry: TypeErasedEventSystem<T>,
    handlers: Seq<(EventHandler, H)>,
)
    requires
        before.wf(),
        !before.systems().contains_key(type_id),
        forall|h: EventHandler| #[trigger] before.handler_runs().contains_key(h) ==> h.event_system_type_id != type_id,
        forall|i: int| 0 <= i < handlers.len() ==> (#[trigger] handlers[i]).0.event_system_type_id == type_id,
        // what registering the system with `handlers` made of `before`
        before.adds_system(added, type_id, entry, handlers),
        // what unregistering it made of that
        added.removes_system(removed, type_id),
    ensures
        removed.systems() == before.systems(),
        removed.handler_runs() == before.handler_runs(),
        removed.compatibilities() == before.compatibilities(),
        forall|e: u64| crate::maps::handlers_of(removed.handlers(), e) == crate::maps::handlers_of(before.handlers(), e),
{
    assert(removed.systems() =~= before.systems());
    assert forall|h: EventHandler| #[trigger] removed.handler_runs().contains_key(h) <==> before.handler_runs().contains_key(h) by {
        if lists_handler(handlers, h) && !before.handler_runs().contains_key(h) {
            let i = choose|i: int| 0 <= i < handlers.len() && (#[trigger] handlers[i]).0 == h;
        }
    }
    assert(removed.handler_runs() =~= before.handler_runs());
    assert forall|p: (u64, u64)| #[trigger] removed.compatibilities().contains(p) <==> before.compatibilities().contains(p) by {
        if before.compatibilities().contains(p) {
            assert(before.systems().contains_key(p.0) && before.systems().contains_key(p.1));
        }
        if removed.compatibilities().contains(p) && !before.compatibilities().contains(p) {
            let systems = dependency_view(added.systems());
            if p != (type_id, type_id) {
                let x = choose|x: u64|
                    #[trigger] systems.contains_key(x) && crate::maps::systems_compatible(
                        type_id,
                        entry.dependencies@,
                        x,
                        systems[x],
                    ) && p == crate::maps::compatibility_key(type_id, x);
            }
        }
    }
    assert(removed.compatibilities() =~= before.compatibilities());
    assert forall|e: u64| crate::maps::handlers_of(removed.handlers(), e) == crate::maps::handlers_of(before.handlers(), e) by {
        let ks = handler_keys(handlers);
        let keep = not_of_system(type_id);
        if added.handlers().contains_key(e) {
            let old_list = crate::maps::handlers_of(before.handlers(), e);
            let new_part = ks.filter(of_event(e));
            assert(old_list.filter(keep) =~= old_list) by {
                assert forall|i: int| 0 <= i < old_list.len() implies keep(#[trigger] old_list[i]) by {
                    assert(before.event_to_handlers_map@[e][i] == old_list[i]);
                }
                lemma_filter_all(old_list, keep);
            }
            assert(new_part.filter(keep) =~= Seq::<EventHandler>::empty()) by {
                if new_part.filter(keep).len() > 0 {
                    let y = new_part.filter(keep)[0];
                    new_part.lemma_filter_pred(keep, 0);
                    new_part.lemma_filter_contains_rev(keep, y);
                    ks.lemma_filter_contains_rev(of_event(e), y);
                    let i = choose|i: int| 0 <= i < ks.len() && ks[i] == y;
                    assert(handlers[i].0 == y);
                }
            }
            Seq::filter_distributes_over_add(old_list, new_part, keep);
            assert(removed.handlers()[e] =~= old_list);
            if !before.handlers().contains_key(e) {
                assert(old_list =~= Seq::<EventHandler>::empty());
            }
        } else {
            assert(!before.handlers().contains_key(e));
        }
    }
}

/// Unregistering a system keeps a consistent registry consistent; afterwards nothing in it
/// names that system, and all that did not name it is as it was.
pub proof fn lemma_remove_system_keeps_registry_consistent<T, H, M>(
    before: EventManager<T, H, M>,
    after: EventManager<T, H, M>,
    type_id: u64,
)
    requires
        before.registry_consistent(),
        before.removes_system(after, type_id),
    ensures
        after.registry_consistent(),
        !after.systems().contains_key(type_id),
        forall|h: EventHandler| #[trigger] after.handler_runs().contains_key(h) ==> h.event_system_type_id != type_id,
        forall|e: u64, i: int|
            after.handlers().contains_key(e) && 0 <= i < after.handlers()[e].len()
                ==> (#[trigger] after.handlers()[e][i]).event_system_type_id != type_id,
        forall|p: (u64, u64)| #[trigger] after.compatibilities().contains(p) ==> p.0 != type_id && p.1 != type_id,
        forall|s: u64| s != type_id ==> (#[trigger] after.systems().contains_key(s) == before.systems().contains_key(s)
            && (after.systems().contains_key(s) ==> after.systems()[s] == before.systems()[s])),
        forall|h: EventHandler| h.event_system_type_id != type_id ==> (
            #[trigger] after.handler_runs().contains_key(h) == before.handler_runs().contains_key(h)
            && (after.handler_runs().contains_key(h) ==> after.handler_runs()[h] == before.handler_runs()[h])),
        forall|p: (u64, u64)| p.0 != type_id && p.1 != type_id ==> (
            #[trigger] after.compatibilities().contains(p) == before.compatibilities().contains(p)),
{
    let keep = not_of_system(type_id);
    lemma_unregistered_handlers_gone(before.handlers(), before.handler_runs(), type_id, after.handlers(), after.handler_runs());
    assert forall|e: u64, i: int|
        #![trigger after.handlers()[e][i]]
        after.handlers().contains_key(e) && 0 <= i < after.handlers()[e].len() implies {
            &&& after.handler_runs().contains_key(after.handlers()[e][i])
            &&& after.handlers()[e][i].event_type_id == e
        } by {
        let old_list = before.handlers()[e];
        let x = after.handlers()[e][i];
        old_list.lemma_filter_pred(keep, i);
        old_list.lemma_filter_contains_rev(keep, x);
        let j = choose|j: int| 0 <= j < old_list.len() && old_list[j] == x;
        assert(before.handlers()[e][j] == x);
    }
    assert forall|h: EventHandler| #[trigger] after.handler_runs().contains_key(h) implies {
        &&& after.handlers().contains_key(h.event_type_id)
        &&& after.handlers()[h.event_type_id].contains(h)
        &&& after.systems().contains_key(h.event_system_type_id)
    } by {
        let old_list = before.handlers()[h.event_type_id];
        assert(old_list.contains(h));
        let j = choose|j: int| 0 <= j < old_list.len() && old_list[j] == h;
        old_list.lemma_filter_contains(keep, j);
    }
}

/// Registering a system with handlers of its own keeps a consistent registry consistent.
pub proof fn lemma_add_system_keeps_registry_consistent<T, H, M>(
    before: EventManager<T, H, M>,
    after: EventManager<T, H, M>,
    type_id: u64,
    entry: TypeErasedEventSystem<T>,
    handlers: Seq<(EventHandler, H)>,
)
    requires
        before.registry_consistent(),
        before.adds_system(after, type_id, entry, handlers),
        forall|i: int| 0 <= i < handlers.len() ==> (#[trigger] handlers[i]).0.event_system_type_id == type_id,
    ensures
        after.registry_consistent(),
{
    let ks = handler_keys(handlers);
    assert forall|e: u64, i: int|
        #![trigger after.handlers()[e][i]]
        after.handlers().contains_key(e) && 0 <= i < after.handlers()[e].len() implies {
            &&& after.handler_runs().contains_key(after.handlers()[e][i])
            &&& after.handlers()[e][i].event_type_id == e
        } by {
        let old_list = crate::maps::handlers_of(before.handlers(), e);
        let new_part = ks.filter(of_event(e));
        let x = after.handlers()[e][i];
        if i < old_list.len() {
            assert(x == old_list[i]);
            assert(before.handlers().contains_key(e));
            assert(before.handlers()[e][i] == x);
        } else {
            let k = i - old_list.len();
            assert(x == new_part[k]);
            ks.lemma_filter_pred(of_event(e), k);
            ks.lemma_filter_contains_rev(of_event(e), x);
            let j = choose|j: int| 0 <= j < ks.len() && ks[j] == x;
            assert(handlers[j].0 == x);
            assert(lists_handler(handlers, x));
        }
    }
    assert forall|h: EventHandler| #[trigger] after.handler_runs().contains_key(h) implies {
        &&& after.handlers().contains_key(h.event_type_id)
        &&& after.handlers()[h.event_type_id].contains(h)
        &&& after.systems().contains_key(h.event_system_type_id)
    } by {
        let e = h.event_type_id;
        let old_list = crate::maps::handlers_of(before.handlers(), e);
        let new_part = ks.filter(of_event(e));
        if before.handler_runs().contains_key(h) {
            assert(before.handlers().contains_key(e));
            assert(before.handlers()[e].contains(h));
            assert(old_list == before.handlers()[e]);
            let j = choose|j: int| 0 <= j < old_list.len() && old_list[j] == h;
            assert(after.handlers().contains_key(e));
            assert(after.handlers()[e] == old_list + new_part);
            assert(after.handlers()[e][j] == h);
        } else {
            let i = choose|i: int| 0 <= i < handlers.len() && (#[trigger] handlers[i]).0 == h;
            assert(ks[i] == h);
            assert(after.handlers().contains_key(e));
            ks.lemma_filter_contains(of_event(e), i);
            let k = choose|k: int| 0 <= k < new_part.len() && new_part[k] == h;
            assert(after.handlers()[e][old_list.len() + k] == h);
        }
    }
    assert forall|p: (u64, u64)| #[trigger] after.compatibilities().contains(p) implies {
        &&& after.systems().contains_key(p.0)
        &&& after.systems().contains_key(p.1)
    } by {
        if !before.compatibilities().contains(p) && p != (type_id, type_id) {
            let systems = dependency_view(after.systems());
            let x = choose|x: u64|
                #[trigger] systems.contains_key(x) && crate::maps::systems_compatible(
                    type_id,
                    entry.dependencies@,
                    x,
                    systems[x],
                ) && p == crate::maps::compatibility_key(type_id, x);
        }
    }
}

/// Keeping the elements that all pass `p` keeps them all.
proof fn lemma_filter_all(s: Seq<EventHandler>, p: spec_fn(EventHandler) -> bool)
    requires
        forall|i: int| 0 <= i < s.len() ==> p(#[trigger] s[i]),
    ensures
        s.filter(p) == s,
    decreases s.len(),
{
    reveal_with_fuel(Seq::filter, 1);
    if s.len() > 0 {
        lemma_filter_all(s.drop_last(), p);
        assert(s.drop_last().push(s.last()) =~= s);
    } else {
        assert(s.filter(p) =~= s);
    }
}

/// Whether `v` holds `h`.
fn holds_handler(v: &Vec<EventHandler>, h: &EventHandler) -> (b: bool)
    ensures
        b == v@.contains(*h),
{
    let mut i: usize = 0;
    while i < v.len()
        invariant
            i <= v@.len(),
            forall|j: int| 0 <= j < i ==> v@[j] != *h,
        decreases v@.len() - i,
    {
        if v[i].event_system_type_id == h.event_system_type_id && v[i].event_type_id == h.event_type_id {
            assert(v@[i as int] == *h);
            return true;
        }
        i = i + 1;
    }
    false
}

/// The handlers for the event type `e`.
pub open spec fn of_event(e: u64) -> spec_fn(EventHandler) -> bool {
    |h: EventHandler| h.event_type_id == e
}

impl<T, H, M> EventManager<T, H, M> {
    /// For each event type, its handlers in registration order.
    pub closed spec fn handlers(&self) -> Map<u64, Seq<EventHandler>> {
        self.event_to_handlers_map@
    }

    /// Every registered handler, with what runs it.
    pub closed spec fn handler_runs(&self) -> Map<EventHandler, H> {
        self.handler_map@
    }

    /// The unordered pairs of systems that may handle events at the same time.
    pub closed spec fn compatibilities(&self) -> Set<(u64, u64)> {
        self.compatibility_map@
    }

    /// The registered event systems, by type.
    pub closed spec fn systems(&self) -> Map<u64, TypeErasedEventSystem<T>> {
        self.event_system_map@
    }

    /// `self` and `other` hold the same tables.
    pub closed spec fn same_tables(&self, other: Self) -> bool {
        &&& self.event_to_handlers_map == other.event_to_handlers_map
        &&& self.handler_map == other.handler_map
        &&& self.event_system_map == other.event_system_map
        &&& self.compatibility_map == other.compatibility_map
    }

    proof fn lemma_same_tables_wf(&self, other: Self)
        requires
            self.same_tables(other),
        ensures
            self.wf() == other.wf(),
            self.handlers() == other.handlers(),
            self.handler_runs() == other.handler_runs(),
            self.compatibilities() == other.compatibilities(),
            self.systems() == other.systems(),
    {
    }

    pub closed spec fn manager(&self) -> M {
        self.execution_manager
    }

    /// The tables are well formed, and every handler listed for an event is registered and
    /// handles that event.
    pub closed spec fn wf(&self) -> bool {
        &&& self.handler_map.wf()
        &&& forall|p: (u64, u64)|
            #[trigger] self.compatibility_map@.contains(p) ==> self.event_system_map@.contains_key(p.0)
                && self.event_system_map@.contains_key(p.1)
        &&& forall|e: u64, i: int|
            #![trigger self.event_to_handlers_map@[e][i]]
            self.event_to_handlers_map@.contains_key(e) && 0 <= i
                < self.event_to_handlers_map@[e].len() ==> {
                &&& self.handler_map@.contains_key(self.event_to_handlers_map@[e][i])
                &&& self.event_to_handlers_map@[e][i].event_type_id == e
            }
    }

    pub fn new_with_execution_manager(execution_manager: M) -> (m: Self)
        ensures
            m.wf(),
            m.handlers() == Map::<u64, Seq<EventHandler>>::empty(),
            m.handler_runs() == Map::<EventHandler, H>::empty(),
            m.compatibilities() == Set::<(u64, u64)>::empty(),
            m.systems() == Map::<u64, TypeErasedEventSystem<T>>::empty(),
            m.manager() == execution_manager,
    {
        EventManager {
            event_to_handlers_map: EventToHandlersMap::new(),
            handler_map: HandlerMap::new(),
            compatibility_map: CompatibilityMap::new(),
            event_system_map: EventSystemMap::new(),
            execution_manager,
        }
    }

    pub fn set_execution_manager(&mut self, execution_manager: M)
        ensures
            final(self).manager() == execution_manager,
            final(self).handlers() == old(self).handlers(),
            final(self).handler_runs() == old(self).handler_runs(),
            final(self).compatibilities() == old(self).compatibilities(),
            final(self).systems() == old(self).systems(),
            final(self).wf() == old(self).wf(),
    {
        let ghost before = *self;
        self.execution_manager = execution_manager;
        proof {
            self.lemma_same_tables_wf(before);
        }
    }

    /// The execution manager, to run handlers with.
    #[verifier::spinoff_prover]
    pub fn execution_manager(&mut self) -> (r: &mut M)
        ensures
            *r == old(self).manager(),
            final(self).manager() == *final(r),
            final(self).handlers() == old(self).handlers(),
            final(self).handler_runs() == old(self).handler_runs(),
            final(self).compatibilities() == old(self).compatibilities(),
            final(self).systems() == old(self).systems(),
            final(self).same_tables(*old(self)),
            final(self).wf() == old(self).wf(),
    {
        &mut self.execution_manager
    }

    pub fn contains_system(&self, type_id: u64) -> (b: bool)
        requires
            self.wf(),
        ensures
            b == self.systems().contains_key(type_id),
    {
        self.event_system_map.contains(&type_id)
    }

    /// The registered system of type `type_id`.
    pub fn get(&self, type_id: u64) -> (r: Option<&T>)
        requires
            self.wf(),
        ensures
            match r {
                Some(s) => self.systems().contains_key(type_id) && *s == self.systems()[type_id].event_system,
                None => !self.systems().contains_key(type_id),
            },
    {
        self.event_system_map.get(&type_id)
    }

    /// What runs the registered handler `handler`.
    pub fn handler(&self, handler: &EventHandler) -> (r: Option<&H>)
        requires
            self.wf(),
        ensures
            match r {
                Some(p) => self.handler_runs().contains_key(*handler) && *p == self.handler_runs()[*handler],
                None => !self.handler_runs().contains_key(*handler),
            },
    {
        self.handler_map.get(handler.event_system_type_id, handler.event_type_id)
    }

    /// Whether the systems `a` and `b` may handle events at the same time.
    pub fn is_compatible(&self, a: u64, b: u64) -> (r: bool)
        ensures
            r == self.compatibilities().contains(crate::maps::compatibility_key(a, b)),
    {
        self.compatibility_map.is_compatible(a, b)
    }

    /// Whether a handler of `handlers` is registered already or given twice.
    pub fn has_duplicate_handler(&self, handlers: &Vec<(EventHandler, H)>) -> (dup: bool)
        requires
            self.wf(),
        ensures
            dup == (!distinct_handlers(handlers@) || exists|i: int|
                0 <= i < handlers@.len() && self.handler_runs().contains_key(
                    (#[trigger] handlers@[i]).0,
                )),
    {
        let mut i: usize = 0;
        while i < handlers.len()
            invariant
                self.wf(),
                i <= handlers@.len(),
                forall|a: int, b: int| 0 <= a < b < i ==> (#[trigger] handlers@[a]).0 != (#[trigger] handlers@[b]).0,
                forall|a: int| 0 <= a < i ==> !self.handler_runs().contains_key((#[trigger] handlers@[a]).0),
            decreases handlers@.len() - i,
        {
            let h = handlers[i].0;
            if self.handler_map.contains(h.event_system_type_id, h.event_type_id) {
                assert(self.handler_runs().contains_key(handlers@[i as int].0));
                return true;
            }
            let mut j: usize = 0;
            while j < i
                invariant
                    i < handlers@.len(),
                    j <= i,
                    h == handlers@[i as int].0,
                    forall|a: int| 0 <= a < j ==> (#[trigger] handlers@[a]).0 != h,
                decreases i - j,
            {
                if handlers[j].0.event_system_type_id == h.event_system_type_id && handlers[j].0.event_type_id
                    == h.event_type_id {
                    assert(handlers@[j as int].0 == handlers@[i as int].0);
                    return true;
                }
                j = j + 1;
            }
            i = i + 1;
        }
        false
    }

    /// `after` is `self` with the system `entry` of type `type_id` registered, with its
    /// handlers (each with what runs it) listed for their events after those listed already,
    /// and with the pairs of systems that it may run beside.
    pub open spec fn adds_system(
        self,
        after: Self,
        type_id: u64,
        entry: TypeErasedEventSystem<T>,
        handlers: Seq<(EventHandler, H)>,
    ) -> bool {
        &&& after.systems() == self.systems().insert(type_id, entry)
        &&& forall|h: EventHandler| #[trigger] after.handler_runs().contains_key(h) <==> (
            self.handler_runs().contains_key(h) || lists_handler(handlers, h))
        &&& forall|h: EventHandler| #[trigger] self.handler_runs().contains_key(h) ==>
            after.handler_runs()[h] == self.handler_runs()[h]
        &&& forall|i: int| 0 <= i < handlers.len() ==>
            after.handler_runs()[(#[trigger] handlers[i]).0] == handlers[i].1
        &&& forall|e: u64| #[trigger] after.handlers().contains_key(e) <==> (
            self.handlers().contains_key(e) || exists|i: int|
            0 <= i < handlers.len() && (#[trigger] handlers[i]).0.event_type_id == e)
        &&& forall|e: u64| #[trigger] after.handlers().contains_key(e) ==>
            after.handlers()[e] == crate::maps::handlers_of(self.handlers(), e)
            + handler_keys(handlers).filter(of_event(e))
        &&& after.compatibilities() == self.compatibilities().union(
            new_compatibilities(type_id, entry.dependencies@, dependency_view(after.systems())),
        )
        &&& after.manager() == self.manager()
    }

    /// `after` is `self` with the system `type_id` unregistered: its handlers are dropped from
    /// the lists and from the handler table, and it is paired with no system.
    pub open spec fn removes_system(self, after: Self, type_id: u64) -> bool {
        &&& after.manager() == self.manager()
        &&& after.systems() == self.systems().remove(type_id)
        &&& after.handlers() == self.handlers().map_values(
            |hs: Seq<EventHandler>| hs.filter(not_of_system(type_id)),
        )
        &&& after.handler_runs() == self.handler_runs().restrict(
            self.handler_runs().dom().filter(not_of_system(type_id)),
        )
        &&& after.compatibilities() == self.compatibilities().filter(pair_avoids(type_id))
    }

    /// Every listed handler is registered for its event and every registered handler is
    /// listed for it; every registered handler and every compatible pair names registered
    /// systems only.
    pub open spec fn registry_consistent(self) -> bool {
        &&& forall|e: u64, i: int|
            #![trigger self.handlers()[e][i]]
            self.handlers().contains_key(e) && 0 <= i < self.handlers()[e].len() ==> {
                &&& self.handler_runs().contains_key(self.handlers()[e][i])
                &&& self.handlers()[e][i].event_type_id == e
            }
        &&& forall|h: EventHandler| #[trigger] self.handler_runs().contains_key(h) ==> {
            &&& self.handlers().contains_key(h.event_type_id)
            &&& self.handlers()[h.event_type_id].contains(h)
            &&& self.systems().contains_key(h.event_system_type_id)
        }
        &&& forall|p: (u64, u64)| #[trigger] self.compatibilities().contains(p) ==> {
            &&& self.systems().contains_key(p.0)
            &&& self.systems().contains_key(p.1)
        }
    }

    /// Registers the event system `event_system` of type `type_id`, which depends on
    /// `dependencies`, with its handlers (each with what runs it); records which registered
    /// systems it may run beside. The type and the handlers must not be registered yet, and
    /// no handler may be given twice.
    pub fn add_system(
        &mut self,
        type_id: u64,
        event_system: T,
        dependencies: Vec<Dependency>,
        handlers: Vec<(EventHandler, H)>,
    )
        requires
            old(self).wf(),
            !old(self).systems().contains_key(type_id),
            distinct_handlers(handlers@),
            forall|i: int| 0 <= i < handlers@.len() ==> !old(self).handler_runs().contains_key(
                (#[trigger] handlers@[i]).0,
            ),
        ensures
            final(self).wf(),
            old(self).adds_system(
                *final(self),
                type_id,
                TypeErasedEventSystem { event_system, dependencies },
                handlers@,
            ),
            old(self).registry_consistent() && (forall|i: int| 0 <= i < handlers@.len()
                ==> (#[trigger] handlers@[i]).0.event_system_type_id == type_id)
                ==> final(self).registry_consistent(),
    {
        let ghost entry = TypeErasedEventSystem { event_system, dependencies };
        let ghost given = handlers@;
        let r = self.try_add_system(type_id, event_system, dependencies, handlers);
        proof {
            assert(!(exists|i: int|
                0 <= i < handlers@.len() && old(self).handler_runs().contains_key(
                    (#[trigger] handlers@[i]).0,
                )));
            match r {
                Ok(()) => {},
                Err(AddSystemError::DuplicateEventSystem) => {},
                Err(AddSystemError::DuplicateEventHandler) => {},
            }
            if old(self).registry_consistent() && (forall|i: int| 0 <= i < given.len()
                ==> (#[trigger] given[i]).0.event_system_type_id == type_id) {
                lemma_add_system_keeps_registry_consistent(*old(self), *self, type_id, entry, given);
            }
        }
    }

    /// As `add_system`, but where the type or a handler is registered already, or a handler is
    /// given twice, refuses with an error and changes nothing.
    pub fn try_add_system(
        &mut self,
        type_id: u64,
        event_system: T,
        dependencies: Vec<Dependency>,
        handlers: Vec<(EventHandler, H)>,
    ) -> (r: Result<(), AddSystemError>)
        requires
            old(self).wf(),
        ensures
            final(self).wf(),
            final(self).manager() == old(self).manager(),
            r == Err::<(), AddSystemError>(AddSystemError::DuplicateEventSystem) <==> old(self).systems().contains_key(type_id),
            r == Err::<(), AddSystemError>(AddSystemError::DuplicateEventHandler) <==> (
                !old(self).systems().contains_key(type_id) && (!distinct_handlers(handlers@) || exists|i: int|
                0 <= i < handlers@.len() && old(self).handler_runs().contains_key(
                    (#[trigger] handlers@[i]).0,
                ))),
            r is Err ==> *final(self) == *old(self),
            r is Ok ==> old(self).adds_system(
                *final(self),
                type_id,
                TypeErasedEventSystem { event_system, dependencies },
                handlers@,
            ),
    {
        if self.event_system_map.contains(&type_id) {
            return Err(AddSystemError::DuplicateEventSystem);
        }
        if self.has_duplicate_handler(&handlers) {
            return Err(AddSystemError::DuplicateEventHandler);
        }
        let ghost old_self = *self;
        self.event_system_map.insert(type_id, event_system, dependencies);
        let ghost new_systems = self.event_system_map@;
        let mut i: usize = 0;
        let mut handlers = handlers;
        let ghost hs = handlers@;
        assert(handler_keys(hs).take(0) =~= Seq::<EventHandler>::empty());
        // the handlers are taken from the back of a reversed copy, so in their given order
        let mut reversed: Vec<(EventHandler, H)> = Vec::new();
        while handlers.len() > 0
            invariant
                reversed@.len() + handlers@.len() == hs.len(),
                forall|j: int| 0 <= j < handlers@.len() ==> handlers@[j] == hs[j],
                forall|j: int| 0 <= j < reversed@.len() ==> reversed@[j] == hs[hs.len() - 1 - j],
            decreases handlers@.len(),
        {
            let p = handlers.pop().unwrap();
            reversed.push(p);
        }
        let n = reversed.len();
        while i < n
            invariant
                n == hs.len(),
                self.wf(),
                old_self.wf(),
                self.event_system_map@ == new_systems,
                self.compatibility_map@ == old_self.compatibility_map@,
                self.execution_manager == old_self.execution_manager,
                distinct_handlers(hs),
                forall|a: int| 0 <= a < hs.len() ==> !old_self.handler_map@.contains_key((#[trigger] hs[a]).0),
                i <= hs.len(),
                reversed@.len() == hs.len() - i,
                forall|j: int| 0 <= j < reversed@.len() ==> reversed@[j] == hs[hs.len() - 1 - j],
                forall|h: EventHandler| #[trigger] self.handler_map@.contains_key(h) <==> (
                    old_self.handler_map@.contains_key(h) || exists|a: int| 0 <= a < i && (#[trigger] hs[a]).0 == h),
                forall|h: EventHandler| #[trigger] old_self.handler_map@.contains_key(h) ==>
                    self.handler_map@[h] == old_self.handler_map@[h],
                forall|a: int| 0 <= a < i ==> self.handler_map@[(#[trigger] hs[a]).0] == hs[a].1,
                forall|e: u64| #[trigger] self.event_to_handlers_map@.contains_key(e) <==> (
                    old_self.event_to_handlers_map@.contains_key(e) || exists|a: int|
                    0 <= a < i && (#[trigger] hs[a]).0.event_type_id == e),
                forall|e: u64| #[trigger] self.event_to_handlers_map@.contains_key(e) ==>
                    self.event_to_handlers_map@[e] == crate::maps::handlers_of(old_self.event_to_handlers_map@, e)
                    + handler_keys(hs).take(i as int).filter(of_event(e)),
            decreases hs.len() - i,
        {
            let (handler, run) = reversed.pop().unwrap();
            assert(handler == hs[i as int].0);
            let ghost before = *self;
            self.event_to_handlers_map.push(handler);
            self.handler_map.insert(handler, run);
            proof {
                let ks = handler_keys(hs);
                assert(ks.take(i + 1) =~= ks.take(i as int).push(handler));
                assert forall|e: u64| #[trigger] self.event_to_handlers_map@.contains_key(e) implies
                    self.event_to_handlers_map@[e] == crate::maps::handlers_of(old_self.event_to_handlers_map@, e)
                    + ks.take(i + 1).filter(of_event(e)) by {
                    ks.take(i as int).lemma_filter_push(handler, of_event(e));
                    if e == handler.event_type_id {
                        if !before.event_to_handlers_map@.contains_key(e) {
                            assert(!old_self.event_to_handlers_map@.contains_key(e));
                            assert forall|a: int| 0 <= a < i implies (#[trigger] hs[a]).0.event_type_id != e by {}
                            assert(ks.take(i as int).filter(of_event(e)) =~= Seq::<EventHandler>::empty()) by {
                                if ks.take(i as int).filter(of_event(e)).len() > 0 {
                                    let x = ks.take(i as int).filter(of_event(e))[0];
                                    ks.take(i as int).lemma_filter_pred(of_event(e), 0);
                                    ks.take(i as int).lemma_filter_contains_rev(of_event(e), x);
                                    let a = choose|a: int| 0 <= a < i && ks.take(i as int)[a] == x;
                                    assert(hs[a].0 == x);
                                }
                            }
                        }
                    }
                }
                assert forall|e: u64, k: int|
                    #![trigger self.event_to_handlers_map@[e][k]]
                    self.event_to_handlers_map@.contains_key(e) && 0 <= k < self.event_to_handlers_map@[e].len()
                    implies {
                        &&& self.handler_map@.contains_key(self.event_to_handlers_map@[e][k])
                        &&& self.event_to_handlers_map@[e][k].event_type_id == e
                    } by {
                    if e == handler.event_type_id && k == self.event_to_handlers_map@[e].len() - 1 {
                    } else {
                        assert(before.event_to_handlers_map@.contains_key(e));
                        assert(self.event_to_handlers_map@[e][k] == before.event_to_handlers_map@[e][k]);
                    }
                }
                assert forall|a: int| 0 <= a < i + 1 implies self.handler_map@[(#[trigger] hs[a]).0] == hs[a].1 by {
                    if a < i {
                        assert(hs[a].0 != hs[i as int].0);
                    }
                }
                assert forall|h: EventHandler| #[trigger] old_self.handler_map@.contains_key(h) implies
                    self.handler_map@[h] == old_self.handler_map@[h] by {
                    assert(h != hs[i as int].0);
                }
            }
            i = i + 1;
        }
        proof {
            assert(handler_keys(hs).take(hs.len() as int) =~= handler_keys(hs));
        }
        let deps = &self.event_system_map.get_raw(&type_id).unwrap().dependencies;
        self.compatibility_map.insert(type_id, deps, &self.event_system_map);
        proof {
            let systems = dependency_view(self.event_system_map@);
            assert forall|p: (u64, u64)| #[trigger] self.compatibility_map@.contains(p) implies
                self.event_system_map@.contains_key(p.0) && self.event_system_map@.contains_key(p.1) by {
                if !old_self.compatibility_map@.contains(p) && p != (type_id, type_id) {
                    let x = choose|x: u64|
                        #[trigger] systems.contains_key(x) && crate::maps::systems_compatible(
                            type_id,
                            self.event_system_map@[type_id].dependencies@,
                            x,
                            systems[x],
                        ) && p == crate::maps::compatibility_key(type_id, x);
                }
            }
        }
        Ok(())
    }

    /// What ordering handlers depends on.
    pub open spec fn graph(&self) -> HandlerGraph {
        HandlerGraph {
            handlers: self.handlers(),
            registered: self.handler_runs().dom(),
            dependencies: dependency_view(self.systems()),
        }
    }

    fn visit(
        &self,
        h: EventHandler,
        path: &mut Vec<EventHandler>,
        fuel: usize,
        out: &mut Vec<EventHandler>,
    ) -> (r: Result<(), PlanError>)
        requires
            self.wf(),
        ensures
            final(path)@ == old(path)@,
            match visit(self.graph(), h, old(path)@, fuel as nat, old(out)@) {
                Ok(o) => r == Ok::<(), PlanError>(()) && final(out)@ == o,
                Err(e) => r == Err::<(), PlanError>(e),
            },
        decreases fuel, 0int,
    {
        if holds_handler(out, &h) {
            return Ok(());
        }
        if fuel == 0 || holds_handler(path, &h) {
            return Err(PlanError::DependencyCycle);
        }
        match self.event_system_map.get_raw(&h.event_system_type_id) {
            None => Err(PlanError::MissingEventSystem(h.event_system_type_id)),
            Some(system) => {
                assert(self.graph().dependencies[h.event_system_type_id] == system.dependencies@);
                path.push(h);
                let r = self.visit_dependencies(h, &system.dependencies, 0, path, fuel - 1, out);
                path.pop();
                match r {
                    Ok(()) => {
                        out.push(h);
                        Ok(())
                    },
                    Err(e) => Err(e),
                }
            },
        }
    }

    fn visit_dependencies(
        &self,
        h: EventHandler,
        deps: &Vec<Dependency>,
        j: usize,
        path: &mut Vec<EventHandler>,
        fuel: usize,
        out: &mut Vec<EventHandler>,
    ) -> (r: Result<(), PlanError>)
        requires
            self.wf(),
            j <= deps@.len(),
        ensures
            final(path)@ == old(path)@,
            match visit_dependencies(self.graph(), h, deps@, j as nat, old(path)@, fuel as nat, old(out)@) {
                Ok(o) => r == Ok::<(), PlanError>(()) && final(out)@ == o,
                Err(e) => r == Err::<(), PlanError>(e),
            },
        decreases fuel, deps@.len() + 1 - j,
    {
        if j >= deps.len() {
            return Ok(());
        }
        let d = EventHandler::new(deps[j].type_id, h.event_type_id);
        if self.handler_map.contains(d.event_system_type_id, d.event_type_id) {
            match self.visit(d, path, fuel, out) {
                Ok(()) => {},
                Err(e) => {
                    return Err(e);
                },
            }
        }
        self.visit_dependencies(h, deps, j + 1, path, fuel, out)
    }

    /// The order in which the handlers run for one event of type `event_type_id`.
    pub fn event_order(&self, event_type_id: u64) -> (r: Result<Vec<EventHandler>, PlanError>)
        requires
            self.wf(),
        ensures
            match r {
                Ok(v) => event_order(self.graph(), event_type_id) == Ok::<Seq<EventHandler>, PlanError>(v@),
                Err(e) => event_order(self.graph(), event_type_id) == Err::<Seq<EventHandler>, PlanError>(e),
            },
    {
        let fuel = self.handler_map.len();
        let mut out: Vec<EventHandler> = Vec::new();
        let mut path: Vec<EventHandler> = Vec::new();
        let ghost g = self.graph();
        match self.event_to_handlers_map.get(&event_type_id) {
            None => {
                assert(crate::maps::handlers_of(g.handlers, event_type_id) =~= Seq::<EventHandler>::empty());
                Ok(out)
            },
            Some(roots) => {
                let mut i: usize = 0;
                assert(path@ =~= Seq::<EventHandler>::empty());
                while i < roots.len()
                    invariant
                        self.wf(),
                        g == self.graph(),
                        fuel == g.registered.len(),
                        roots@ == crate::maps::handlers_of(g.handlers, event_type_id),
                        i <= roots@.len(),
                        path@ == Seq::<EventHandler>::empty(),
                        visit_all(g, roots@, i as nat, fuel as nat, out@) == visit_all(
                            g,
                            roots@,
                            0,
                            fuel as nat,
                            Seq::empty(),
                        ),
                    decreases roots@.len() - i,
                {
                    let r = self.visit(roots[i], &mut path, fuel, &mut out);
                    match r {
                        Ok(()) => {},
                        Err(e) => {
                            return Err(e);
                        },
                    }
                    i = i + 1;
                }
                Ok(out)
            },
        }
    }

    /// The handler executions for a batch of events (given by their types), event by event,
    /// each handler after those it waits for.
    pub fn linear_execution(&self, events: &Vec<u64>) -> (r: Result<Vec<EventHandlerExecution>, PlanError>)
        requires
            self.wf(),
        ensures
            match r {
                Ok(v) => linear_execution_spec(self.graph(), events@) == Ok::<Seq<EventHandlerExecution>, PlanError>(v@),
                Err(e) => linear_execution_spec(self.graph(), events@) == Err::<Seq<EventHandlerExecution>, PlanError>(e),
            },
    {
        let mut execution: Vec<EventHandlerExecution> = Vec::new();
        let mut i: usize = 0;
        assert(events@.take(0) =~= Seq::<u64>::empty());
        while i < events.len()
            invariant
                self.wf(),
                i <= events@.len(),
                linear_execution_spec(self.graph(), events@.take(i as int)) == Ok::<Seq<EventHandlerExecution>, PlanError>(execution@),
            decreases events@.len() - i,
        {
            let ghost prev = execution@;
            assert(events@.take(i + 1).drop_last() =~= events@.take(i as int));
            match self.event_order(events[i]) {
                Err(e) => {
                    proof {
                        lemma_linear_execution_prefix_err(self.graph(), events@, i as int + 1);
                    }
                    return Err(e);
                },
                Ok(order) => {
                    let mut k: usize = 0;
                    while k < order.len()
                        invariant
                            k <= order@.len(),
                            i < events@.len(),
                            execution@ == prev + executions_for(order@.take(k as int), i as int),
                        decreases order@.len() - k,
                    {
                        proof {
                            assert(executions_for(order@.take(k + 1), i as int) =~= executions_for(
                                order@.take(k as int),
                                i as int,
                            ).push(EventHandlerExecution { event_handler: order@[k as int], event: i }));
                        }
                        execution.push(EventHandlerExecution { event_handler: order[k], event: i });
                        k = k + 1;
                    }
                    assert(order@.take(k as int) =~= order@);
                },
            }
            i = i + 1;
        }
        assert(events@.take(i as int) =~= events@);
        Ok(execution)
    }

    /// Cuts `execution` into levels that run one after the other: a new level starts at each
    /// execution whose system may not run at the same time as the system before it.
    pub fn parallel_execution(&self, execution: &Vec<EventHandlerExecution>) -> (r: Vec<
        Vec<EventHandlerExecution>,
    >)
        ensures
            r@.map_values(|v: Vec<EventHandlerExecution>| v@) == levels(self.compatibilities(), execution@),
    {
        let ghost compat = self.compatibilities();
        let mut done: Vec<Vec<EventHandlerExecution>> = Vec::new();
        let mut cur: Vec<EventHandlerExecution> = Vec::new();
        if execution.len() == 0 {
            done.push(cur);
            assert(done@.map_values(|v: Vec<EventHandlerExecution>| v@) =~= levels(compat, execution@));
            return done;
        }
        cur.push(execution[0]);
        let mut i: usize = 1;
        assert(done@.map_values(|v: Vec<EventHandlerExecution>| v@).push(cur@) =~= levels(
            compat,
            execution@.take(1),
        ));
        while i < execution.len()
            invariant
                compat == self.compatibilities(),
                1 <= i <= execution@.len(),
                done@.map_values(|v: Vec<EventHandlerExecution>| v@).push(cur@) == levels(
                    compat,
                    execution@.take(i as int),
                ),
            decreases execution@.len() - i,
        {
            let ghost s = execution@.take(i + 1);
            let ghost prev = levels(compat, execution@.take(i as int));
            assert(s.drop_last() =~= execution@.take(i as int));
            assert(s[s.len() - 2] == execution@[i - 1]);
            assert(s.last() == execution@[i as int]);
            if self.compatibility_map.is_compatible(
                execution[i - 1].event_handler.event_system_type_id,
                execution[i].event_handler.event_system_type_id,
            ) {
                cur.push(execution[i]);
                assert(done@.map_values(|v: Vec<EventHandlerExecution>| v@).push(cur@) =~= prev.update(
                    prev.len() - 1,
                    prev.last().push(s.last()),
                ));
            } else {
                let ghost old_cur = cur@;
                done.push(cur);
                cur = Vec::new();
                cur.push(execution[i]);
                assert(done@.map_values(|v: Vec<EventHandlerExecution>| v@) =~= prev);
                assert(done@.map_values(|v: Vec<EventHandlerExecution>| v@).push(cur@) =~= prev.push(
                    seq![s.last()],
                ));
            }
            i = i + 1;
        }
        assert(execution@.take(i as int) =~= execution@);
        let ghost before = done@.map_values(|v: Vec<EventHandlerExecution>| v@);
        done.push(cur);
        assert(done@.map_values(|v: Vec<EventHandlerExecution>| v@) =~= before.push(cur@));
        done
    }

    /// The order formed for an event of type `e` runs no handler twice, runs every handler
    /// registered for `e` and only handlers of `e`, each after every registered handler it
    /// waits for.
    pub proof fn lemma_event_order_sound(&self, e: u64)
        requires
            self.wf(),
        ensures
            event_order(self.graph(), e) matches Ok(o) ==> {
                &&& o.no_duplicates()
                &&& crate::schedule::dependencies_first(self.graph(), o)
                &&& forall|k: int| 0 <= k < crate::maps::handlers_of(self.handlers(), e).len() ==> o.contains(
                    #[trigger] crate::maps::handlers_of(self.handlers(), e)[k],
                )
                &&& forall|k: int| 0 <= k < o.len() ==> (#[trigger] o[k]).event_type_id == e
                    && self.handler_runs().contains_key(o[k])
            },
    {
        let g = self.graph();
        assert forall|k: int|
            0 <= k < crate::maps::handlers_of(g.handlers, e).len() implies g.registered.contains(
                #[trigger] crate::maps::handlers_of(g.handlers, e)[k],
            ) && crate::maps::handlers_of(g.handlers, e)[k].event_type_id == e by {
            assert(self.event_to_handlers_map@[e][k] == crate::maps::handlers_of(g.handlers, e)[k]);
        }
        crate::schedule::lemma_event_order_sound(g, e);
    }

    /// Where no registered handler waits for itself, directly or through others, ordering the
    /// handlers of an event fails only where a handler's system is not registered.
    pub proof fn lemma_acyclic_event_order(&self, e: u64, rank: spec_fn(EventHandler) -> nat)
        requires
            self.wf(),
            crate::schedule::ranked(self.graph(), rank),
        ensures
            event_order(self.graph(), e) != Err::<Seq<EventHandler>, PlanError>(PlanError::DependencyCycle),
    {
        let g = self.graph();
        self.handler_map.lemma_finite();
        assert forall|k: int|
            0 <= k < crate::maps::handlers_of(g.handlers, e).len() implies g.registered.contains(
                #[trigger] crate::maps::handlers_of(g.handlers, e)[k],
            ) by {
            assert(self.event_to_handlers_map@[e][k] == crate::maps::handlers_of(g.handlers, e)[k]);
        }
        crate::schedule::lemma_acyclic_event_order(g, e, rank);
    }

    /// Where every registered handler's system is registered, ordering the handlers of an event,
    /// or of a batch of events, never reports a missing system.
    pub proof fn lemma_consistent_registry_finds_systems(&self, e: u64, events: Seq<u64>)
        requires
            self.wf(),
            self.registry_consistent(),
        ensures
            !reports_missing_system(event_order(self.graph(), e)),
            !reports_missing_system(linear_execution_spec(self.graph(), events)),
    {
        let g = self.graph();
        self.lemma_listed_registered();
        assert(systems_known(g));
        crate::schedule::lemma_known_systems_event_order(g, e);
        crate::schedule::lemma_known_systems_linear_execution(g, events);
    }

    /// Where moreover no registered handler waits for itself, directly or through others,
    /// every batch of events gets its order.
    pub proof fn lemma_consistent_acyclic_registry_plans(&self, events: Seq<u64>, rank: spec_fn(EventHandler) -> nat)
        requires
            self.wf(),
            self.registry_consistent(),
            crate::schedule::ranked(self.graph(), rank),
        ensures
            linear_execution_spec(self.graph(), events) is Ok,
    {
        let g = self.graph();
        self.handler_map.lemma_finite();
        self.lemma_listed_registered();
        self.lemma_consistent_registry_finds_systems(0, events);
        crate::schedule::lemma_acyclic_linear_execution(g, events, rank);
        match linear_execution_spec(g, events) {
            Ok(_) => {},
            Err(PlanError::DependencyCycle) => {},
            Err(PlanError::MissingEventSystem(_)) => {},
        }
    }

    /// Every handler listed for an event is registered.
    proof fn lemma_listed_registered(&self)
        requires
            self.wf(),
        ensures
            forall|e: u64, k: int|
                0 <= k < crate::maps::handlers_of(self.graph().handlers, e).len() ==> self.graph().registered.contains(
                    #[trigger] crate::maps::handlers_of(self.graph().handlers, e)[k],
                ),
    {
        let g = self.graph();
        assert forall|e: u64, k: int|
            0 <= k < crate::maps::handlers_of(g.handlers, e).len() implies g.registered.contains(
                #[trigger] crate::maps::handlers_of(g.handlers, e)[k],
            ) by {
            assert(self.event_to_handlers_map@[e][k] == crate::maps::handlers_of(g.handlers, e)[k]);
        }
    }

    /// Unregisters the system of type `type_id` with all its handlers and compatibilities.
    pub fn remove_system(&mut self, type_id: u64)
        requires
            old(self).wf(),
        ensures
            final(self).wf(),
            old(self).removes_system(*final(self), type_id),
    {
        self.remove_system_by_type_id(&type_id);
    }

    fn remove_system_by_type_id(&mut self, type_id: &u64)
        requires
            old(self).wf(),
        ensures
            final(self).wf(),
            final(self).manager() == old(self).manager(),
            final(self).systems() == old(self).systems().remove(*type_id),
            final(self).handlers() == old(self).handlers().map_values(
                |hs: Seq<EventHandler>| hs.filter(not_of_system(*type_id)),
            ),
            final(self).handler_runs() == old(self).handler_runs().restrict(
                old(self).handler_runs().dom().filter(not_of_system(*type_id)),
            ),
            final(self).compatibilities() == old(self).compatibilities().filter(pair_avoids(*type_id)),
    {
        let ghost old_self = *self;
        self.event_to_handlers_map.remove_event_system(type_id);
        self.event_system_map.remove(type_id);
        self.compatibility_map.remove(type_id);
        self.handler_map.remove_event_system(type_id);
        proof {
            let t = *type_id;
            assert forall|p: (u64, u64)| #[trigger] self.compatibility_map@.contains(p) implies
                self.event_system_map@.contains_key(p.0) && self.event_system_map@.contains_key(p.1) by {
                assert(old_self.compatibility_map@.contains(p));
            }
            assert forall|e: u64, k: int|
                #![trigger self.event_to_handlers_map@[e][k]]
                self.event_to_handlers_map@.contains_key(e) && 0 <= k < self.event_to_handlers_map@[e].len()
                implies {
                    &&& self.handler_map@.contains_key(self.event_to_handlers_map@[e][k])
                    &&& self.event_to_handlers_map@[e][k].event_type_id == e
                } by {
                let old_list = old_self.event_to_handlers_map@[e];
                let x = self.event_to_handlers_map@[e][k];
                assert(self.event_to_handlers_map@[e] == old_list.filter(not_of_system(t)));
                old_list.lemma_filter_pred(not_of_system(t), k);
                old_list.lemma_filter_contains_rev(not_of_system(t), x);
                let j = choose|j: int| 0 <= j < old_list.len() && old_list[j] == x;
                assert(old_self.event_to_handlers_map@[e][j] == x);
            }
        }
    }
}

/// `packages` group the executions of `level` by event system: one package per system that
/// has executions there, each holding exactly that system's executions in order.
pub open spec fn grouped_by_system(
    packages: Seq<EventSystemExecutionPackage>,
    level: Seq<EventHandlerExecution>,
) -> bool {
    &&& forall|k: int|
        0 <= k < packages.len() ==> (#[trigger] packages[k]).executions@ == level.filter(
            of_system_execution(packages[k].event_system),
        )
    &&& forall|a: int, b: int|
        0 <= a < b < packages.len() ==> (#[trigger] packages[a]).event_system
            != (#[trigger] packages[b]).event_system
    &&& forall|i: int|
        0 <= i < level.len() ==> has_package(packages, (#[trigger] level[i]).event_handler.event_system_type_id)
    &&& forall|k: int|
        0 <= k < packages.len() ==> has_execution(level, (#[trigger] packages[k]).event_system)
}

/// Some execution of the system `first` in `level` comes before every execution of `second`.
pub open spec fn appears_before(level: Seq<EventHandlerExecution>, first: u64, second: u64) -> bool {
    exists|i: int|
        0 <= i < level.len() && (#[trigger] level[i]).event_handler.event_system_type_id == first
            && forall|j: int| 0 <= j <= i ==> (#[trigger] level[j]).event_handler.event_system_type_id != second
}

/// The packages come in the order their systems first appear in `level`.
pub open spec fn in_first_appearance_order(
    packages: Seq<EventSystemExecutionPackage>,
    level: Seq<EventHandlerExecution>,
) -> bool {
    forall|a: int, b: int|
        0 <= a < b < packages.len() ==> appears_before(
            level,
            (#[trigger] packages[a]).event_system,
            (#[trigger] packages[b]).event_system,
        )
}

proof fn lemma_order_extend_existing(
    before: Seq<EventSystemExecutionPackage>,
    after: Seq<EventSystemExecutionPackage>,
    s: Seq<EventHandlerExecution>,
    t: Seq<EventHandlerExecution>,
    x: EventHandlerExecution,
)
    requires
        in_first_appearance_order(before, s),
        t == s.push(x),
        after.len() == before.len(),
        forall|a: int| 0 <= a < before.len() ==> (#[trigger] after[a]).event_system == before[a].event_system,
    ensures
        in_first_appearance_order(after, t),
{
    assert forall|a: int, b: int| 0 <= a < b < after.len() implies appears_before(
        t,
        (#[trigger] after[a]).event_system,
        (#[trigger] after[b]).event_system,
    ) by {
        assert(appears_before(s, before[a].event_system, before[b].event_system));
        let i = choose|i: int|
            0 <= i < s.len() && (#[trigger] s[i]).event_handler.event_system_type_id == before[a].event_system
                && forall|j: int| 0 <= j <= i ==> (#[trigger] s[j]).event_handler.event_system_type_id != before[b].event_system;
        assert(t[i] == s[i]);
        assert forall|j: int| 0 <= j <= i implies (#[trigger] t[j]).event_handler.event_system_type_id != after[b].event_system by {
            assert(t[j] == s[j]);
        }
    }
}

proof fn lemma_order_extend_new(
    before: Seq<EventSystemExecutionPackage>,
    p: EventSystemExecutionPackage,
    s: Seq<EventHandlerExecution>,
    x: EventHandlerExecution,
    after: Seq<EventSystemExecutionPackage>,
    t: Seq<EventHandlerExecution>,
)
    requires
        in_first_appearance_order(before, s),
        grouped_by_system(before, s),
        forall|a: int| 0 <= a < before.len() ==> before[a].event_system != x.event_handler.event_system_type_id,
        p.event_system == x.event_handler.event_system_type_id,
        after == before.push(p),
        t == s.push(x),
    ensures
        in_first_appearance_order(after, t),
{
    let sys = p.event_system;
    assert forall|j: int| 0 <= j < s.len() implies (#[trigger] s[j]).event_handler.event_system_type_id != sys by {
        assert(has_package(before, s[j].event_handler.event_system_type_id));
    }
    assert forall|a: int, b: int| 0 <= a < b < after.len() implies appears_before(
        t,
        (#[trigger] after[a]).event_system,
        (#[trigger] after[b]).event_system,
    ) by {
        assert(after[a] == before[a]);
        if b < before.len() {
            assert(after[b] == before[b]);
            assert(appears_before(s, before[a].event_system, before[b].event_system));
            let i = choose|i: int|
                0 <= i < s.len() && (#[trigger] s[i]).event_handler.event_system_type_id == before[a].event_system
                    && forall|j: int| 0 <= j <= i ==> (#[trigger] s[j]).event_handler.event_system_type_id != before[b].event_system;
            assert(t[i] == s[i]);
            assert forall|j: int| 0 <= j <= i implies (#[trigger] t[j]).event_handler.event_system_type_id != after[b].event_system by {
                assert(t[j] == s[j]);
            }
        } else {
            assert(has_execution(s, before[a].event_system));
            let i = choose|i: int|
                0 <= i < s.len() && (#[trigger] s[i]).event_handler.event_system_type_id == before[a].event_system;
            assert(t[i] == s[i]);
            assert forall|j: int| 0 <= j <= i implies (#[trigger] t[j]).event_handler.event_system_type_id != after[b].event_system by {
                assert(t[j] == s[j]);
            }
        }
    }
}

/// Some package in `packages` is that of the system `system`.
pub open spec fn has_package(packages: Seq<EventSystemExecutionPackage>, system: u64) -> bool {
    exists|k: int| 0 <= k < packages.len() && (#[trigger] packages[k]).event_system == system
}

/// Some execution in `level` is one of the system `system`.
pub open spec fn has_execution(level: Seq<EventHandlerExecution>, system: u64) -> bool {
    exists|i: int| 0 <= i < level.len() && (#[trigger] level[i]).event_handler.event_system_type_id == system
}

proof fn lemma_grouped_extend_existing(
    before: Seq<EventSystemExecutionPackage>,
    after: Seq<EventSystemExecutionPackage>,
    s: Seq<EventHandlerExecution>,
    x: EventHandlerExecution,
    k: int,
)
    requires
        grouped_by_system(before, s),
        0 <= k < before.len(),
        before[k].event_system == x.event_handler.event_system_type_id,
        after.len() == before.len(),
        after[k].event_system == before[k].event_system,
        after[k].executions@ == before[k].executions@.push(x),
        forall|a: int| 0 <= a < before.len() && a != k ==> after[a] == before[a],
    ensures
        grouped_by_system(after, s.push(x)),
{
    let t = s.push(x);
    assert forall|a: int|
        0 <= a < after.len() implies (#[trigger] after[a]).executions@ == t.filter(
            of_system_execution(after[a].event_system),
        ) by {
        s.lemma_filter_push(x, of_system_execution(after[a].event_system));
        if a != k {
            assert(after[a] == before[a]);
        }
    }
    assert forall|a: int, b: int|
        0 <= a < b < after.len() implies (#[trigger] after[a]).event_system
            != (#[trigger] after[b]).event_system by {
        assert(after[a].event_system == before[a].event_system);
        assert(after[b].event_system == before[b].event_system);
    }
    assert forall|j: int| 0 <= j < t.len() implies has_package(after, (#[trigger] t[j]).event_handler.event_system_type_id) by {
        if j == s.len() {
            assert(after[k].event_system == t[j].event_handler.event_system_type_id);
        } else {
            assert(t[j] == s[j]);
            assert(has_package(before, s[j].event_handler.event_system_type_id));
            let c = choose|c: int|
                0 <= c < before.len() && (#[trigger] before[c]).event_system
                    == s[j].event_handler.event_system_type_id;
            assert(after[c].event_system == before[c].event_system);
        }
    }
    assert forall|c: int| 0 <= c < after.len() implies has_execution(t, (#[trigger] after[c]).event_system) by {
        assert(after[c].event_system == before[c].event_system);
        assert(has_execution(s, before[c].event_system));
        let j = choose|j: int|
            0 <= j < s.len() && (#[trigger] s[j]).event_handler.event_system_type_id
                == before[c].event_system;
        assert(t[j] == s[j]);
    }
}

proof fn lemma_filter_new_package(
    before: Seq<EventSystemExecutionPackage>,
    p: EventSystemExecutionPackage,
    s: Seq<EventHandlerExecution>,
    x: EventHandlerExecution,
    after: Seq<EventSystemExecutionPackage>,
    t: Seq<EventHandlerExecution>,
)
    requires
        after == before.push(p),
        t == s.push(x),
        grouped_by_system(before, s),
        forall|a: int| 0 <= a < before.len() ==> before[a].event_system != x.event_handler.event_system_type_id,
        p.event_system == x.event_handler.event_system_type_id,
        p.executions@ == seq![x],
    ensures
        forall|k: int|
            0 <= k < after.len() ==> (#[trigger] after[k]).executions@ == t.filter(
                of_system_execution(after[k].event_system),
            ),
{
    let system = p.event_system;
    assert(s.filter(of_system_execution(system)) =~= Seq::<EventHandlerExecution>::empty()) by {
        if s.filter(of_system_execution(system)).len() > 0 {
            let y = s.filter(of_system_execution(system))[0];
            s.lemma_filter_pred(of_system_execution(system), 0);
            s.lemma_filter_contains_rev(of_system_execution(system), y);
            let j = choose|j: int| 0 <= j < s.len() && s[j] == y;
            assert(has_package(before, s[j].event_handler.event_system_type_id));
        }
    }
    assert forall|a: int|
        0 <= a < after.len() implies (#[trigger] after[a]).executions@ == t.filter(
            of_system_execution(after[a].event_system),
        ) by {
        s.lemma_filter_push(x, of_system_execution(after[a].event_system));
        if a < before.len() {
            assert(after[a] == before[a]);
        } else {
            assert(after[a] == p);
            assert(t.filter(of_system_execution(system)) =~= seq![x]);
        }
    }
}

proof fn lemma_cover_new_package(
    before: Seq<EventSystemExecutionPackage>,
    p: EventSystemExecutionPackage,
    s: Seq<EventHandlerExecution>,
    x: EventHandlerExecution,
    after: Seq<EventSystemExecutionPackage>,
    t: Seq<EventHandlerExecution>,
)
    requires
        after == before.push(p),
        t == s.push(x),
        grouped_by_system(before, s),
        p.event_system == x.event_handler.event_system_type_id,
    ensures
        forall|i: int| 0 <= i < t.len() ==> has_package(after, (#[trigger] t[i]).event_handler.event_system_type_id),
        forall|k: int| 0 <= k < after.len() ==> has_execution(t, (#[trigger] after[k]).event_system),
{
    assert forall|j: int| 0 <= j < t.len() implies has_package(after, (#[trigger] t[j]).event_handler.event_system_type_id) by {
        if j == s.len() {
            assert(after[before.len() as int].event_system == t[j].event_handler.event_system_type_id);
        } else {
            assert(t[j] == s[j]);
            assert(has_package(before, s[j].event_handler.event_system_type_id));
            let c = choose|c: int|
                0 <= c < before.len() && (#[trigger] before[c]).event_system
                    == s[j].event_handler.event_system_type_id;
            assert(after[c] == before[c]);
        }
    }
    assert forall|c: int| 0 <= c < after.len() implies has_execution(t, (#[trigger] after[c]).event_system) by {
        if c < before.len() {
            assert(after[c] == before[c]);
            assert(has_execution(s, before[c].event_system));
            let j = choose|j: int|
                0 <= j < s.len() && (#[trigger] s[j]).event_handler.event_system_type_id
                    == before[c].event_system;
            assert(t[j] == s[j]);
        } else {
            assert(t[s.len() as int].event_handler.event_system_type_id == after[c].event_system);
        }
    }
}

proof fn lemma_grouped_extend_new(
    before: Seq<EventSystemExecutionPackage>,
    p: EventSystemExecutionPackage,
    s: Seq<EventHandlerExecution>,
    x: EventHandlerExecution,
    after: Seq<EventSystemExecutionPackage>,
    t: Seq<EventHandlerExecution>,
)
    requires
        after == before.push(p),
        t == s.push(x),
        grouped_by_system(before, s),
        forall|a: int| 0 <= a < before.len() ==> before[a].event_system != x.event_handler.event_system_type_id,
        p.event_system == x.event_handler.event_system_type_id,
        p.executions@ == seq![x],
    ensures
        grouped_by_system(after, t),
{
    lemma_filter_new_package(before, p, s, x, after, t);
    lemma_cover_new_package(before, p, s, x, after, t);
    assert forall|a: int, b: int|
        0 <= a < b < after.len() implies (#[trigger] after[a]).event_system
            != (#[trigger] after[b]).event_system by {
        assert(after[a] == before[a]);
        if b < before.len() {
            assert(after[b] == before[b]);
        }
    }
}

/// The position of the package of the system `system`, if there is one.
fn package_index(packages: &Vec<EventSystemExecutionPackage>, system: u64) -> (r: Option<usize>)
    ensures
        match r {
            Some(k) => k < packages@.len() && packages@[k as int].event_system == system,
            None => forall|a: int| 0 <= a < packages@.len() ==> (#[trigger] packages@[a]).event_system != system,
        },
{
    let mut k: usize = 0;
    while k < packages.len()
        invariant
            k <= packages@.len(),
            forall|a: int| 0 <= a < k ==> (#[trigger] packages@[a]).event_system != system,
        decreases packages@.len() - k,
    {
        if packages[k].event_system == system {
            return Some(k);
        }
        k = k + 1;
    }
    None
}

/// Groups the executions of a level by event system: one package per system, in the order
/// the systems first appear, each holding that system's executions in order.
pub fn execution_packages(level: &Vec<EventHandlerExecution>) -> (r: Vec<EventSystemExecutionPackage>)
    ensures
        grouped_by_system(r@, level@),
        in_first_appearance_order(r@, level@),
{
    let mut packages: Vec<EventSystemExecutionPackage> = Vec::new();
    let mut i: usize = 0;
    assert(grouped_by_system(packages@, level@.take(0)));
    while i < level.len()
        invariant
            i <= level@.len(),
            grouped_by_system(packages@, level@.take(i as int)),
            in_first_appearance_order(packages@, level@.take(i as int)),
        decreases level@.len() - i,
    {
        let x = level[i];
        let system = x.event_handler.event_system_type_id;
        assert(level@.take(i + 1) =~= level@.take(i as int).push(x));
        let ghost before = packages@;
        match package_index(&packages, system) {
            Some(k) => {
                let mut p = EventSystemExecutionPackage { event_system: system, executions: Vec::new() };
                packages.set_and_swap(k, &mut p);
                p.executions.push(x);
                packages.set_and_swap(k, &mut p);
                proof {
                    lemma_grouped_extend_existing(before, packages@, level@.take(i as int), x, k as int);
                    lemma_order_extend_existing(before, packages@, level@.take(i as int), level@.take(i + 1), x);
                }
            },
            None => {
                let mut executions: Vec<EventHandlerExecution> = Vec::new();
                executions.push(x);
                let p = EventSystemExecutionPackage { event_system: system, executions };
                proof {
                    lemma_grouped_extend_new(before, p, level@.take(i as int), x, before.push(p), level@.take(i as int).push(x));
                    lemma_order_extend_new(before, p, level@.take(i as int), x, before.push(p), level@.take(i as int).push(x));
                }
                packages.push(p);
            },
        }
        i = i + 1;
    }
    assert(level@.take(i as int) =~= level@);
    packages
}

/// The positions in `flags` that hold `want`, in order.
pub open spec fn positions_where(flags: Seq<bool>, want: bool) -> Seq<usize>
    decreases flags.len(),
{
    if flags.len() == 0 {
        Seq::empty()
    } else {
        let prev = positions_where(flags.drop_last(), want);
        if flags.last() == want {
            prev.push((flags.len() - 1) as usize)
        } else {
            prev
        }
    }
}

/// The positions kept for `want` are exactly those whose flag is `want`, each once and in
/// increasing order; the positions for the two flags together number the flags.
pub proof fn lemma_positions_where(flags: Seq<bool>, want: bool)
    requires
        flags.len() <= usize::MAX,
    ensures
        forall|i: int| 0 <= i < flags.len() ==> (#[trigger] positions_where(flags, want).contains(i as usize)
            <==> flags[i] == want),
        forall|k: int| 0 <= k < positions_where(flags, want).len() ==> {
            &&& (#[trigger] positions_where(flags, want)[k]) < flags.len()
            &&& flags[positions_where(flags, want)[k] as int] == want
        },
        forall|k: int, l: int|
            0 <= k < l < positions_where(flags, want).len() ==> #[trigger] positions_where(flags, want)[k]
                < #[trigger] positions_where(flags, want)[l],
        positions_where(flags, false).len() + positions_where(flags, true).len() == flags.len(),
    decreases flags.len(),
{
    if flags.len() > 0 {
        let rest = flags.drop_last();
        lemma_positions_where(rest, want);
        lemma_positions_where(rest, !want);
        let prev = positions_where(rest, want);
        let p = positions_where(flags, want);
        let n = (flags.len() - 1) as usize;
        assert forall|i: int| 0 <= i < flags.len() implies (#[trigger] p.contains(i as usize) <==> flags[i] == want) by {
            if i < flags.len() - 1 {
                assert(rest[i] == flags[i]);
                if p.contains(i as usize) {
                    let k = choose|k: int| 0 <= k < p.len() && p[k] == i as usize;
                    if k < prev.len() {
                        assert(prev[k] == p[k]);
                    }
                }
                if prev.contains(i as usize) {
                    let k = choose|k: int| 0 <= k < prev.len() && prev[k] == i as usize;
                    assert(p[k] == prev[k]);
                }
            } else {
                if flags.last() == want {
                    assert(p[p.len() - 1] == n);
                } else {
                    if p.contains(i as usize) {
                        let k = choose|k: int| 0 <= k < p.len() && p[k] == i as usize;
                        assert(prev[k] < rest.len());
                    }
                }
            }
        }
        assert forall|k: int| 0 <= k < p.len() implies {
            &&& (#[trigger] p[k]) < flags.len()
            &&& flags[p[k] as int] == want
        } by {
            if k < prev.len() {
                assert(p[k] == prev[k]);
                assert(rest[prev[k] as int] == flags[prev[k] as int]);
            }
        }
        assert forall|k: int, l: int| 0 <= k < l < p.len() implies #[trigger] p[k] < #[trigger] p[l] by {
            if l < prev.len() {
                assert(p[k] == prev[k] && p[l] == prev[l]);
            } else {
                assert(p[k] == prev[k]);
            }
        }
    }
}

/// Parts a batch of received events by whether each is delayed: the positions of the events
/// handled in this pass (which are the ones counted), and of the delayed ones, which are passed
/// on to the next pass over the in-progress queue; each in the order received.
pub fn split_delayed(delayed: &Vec<bool>) -> (r: (Vec<usize>, Vec<usize>))
    ensures
        r.0@ == positions_where(delayed@, false),
        r.1@ == positions_where(delayed@, true),
        forall|i: int| 0 <= i < delayed@.len() ==> (delayed@[i] <==> #[trigger] r.1@.contains(i as usize)),
        forall|i: int| 0 <= i < delayed@.len() ==> (!delayed@[i] <==> #[trigger] r.0@.contains(i as usize)),
        r.0@.len() + r.1@.len() == delayed@.len(),
{
    let mut now: Vec<usize> = Vec::new();
    let mut later: Vec<usize> = Vec::new();
    let mut i: usize = 0;
    assert(delayed@.take(0) =~= Seq::<bool>::empty());
    while i < delayed.len()
        invariant
            i <= delayed@.len(),
            now@ == positions_where(delayed@.take(i as int), false),
            later@ == positions_where(delayed@.take(i as int), true),
        decreases delayed@.len() - i,
    {
        assert(delayed@.take(i + 1).drop_last() =~= delayed@.take(i as int));
        assert(delayed@.take(i + 1).last() == delayed@[i as int]);
        if delayed[i] {
            later.push(i);
        } else {
            now.push(i);
        }
        i = i + 1;
    }
    assert(delayed@.take(i as int) =~= delayed@);
    proof {
        lemma_positions_where(delayed@, false);
        lemma_positions_where(delayed@, true);
    }
    (now, later)
}

/// The command to run next from a stack of batches: the first of the newest batch that still
/// holds one; emptied batches are dropped.
pub open spec fn next_command<C>(batches: Seq<Seq<C>>) -> (Seq<Seq<C>>, Option<C>)
    decreases batches.len(),
{
    if batches.len() == 0 {
        (batches, None)
    } else if batches.last().len() == 0 {
        next_command(batches.drop_last())
    } else {
        (batches.update(batches.len() - 1, batches.last().drop_first()), Some(batches.last()[0]))
    }
}

/// The commands waiting to run: each run command's newly issued commands form a batch that
/// runs, with everything those issue in turn, before the rest of the batch it came from.
pub struct CommandAgenda<C> {
    batches: Vec<Vec<C>>,
}

impl<C> View for CommandAgenda<C> {
    type V = Seq<Seq<C>>;

    closed spec fn view(&self) -> Seq<Seq<C>> {
        self.batches@.map_values(|b: Vec<C>| b@)
    }
}

impl<C> CommandAgenda<C> {
    pub fn new() -> (a: Self)
        ensures
            a@ == Seq::<Seq<C>>::empty(),
    {
        let a = CommandAgenda { batches: Vec::new() };
        assert(a@ =~= Seq::<Seq<C>>::empty());
        a
    }

    /// Adds the commands issued since the last step as the newest batch.
    pub fn push_batch(&mut self, batch: Vec<C>)
        ensures
            final(self)@ == old(self)@.push(batch@),
    {
        self.batches.push(batch);
        assert(self@ =~= old(self)@.push(batch@));
    }

    /// Takes the command to run next.
    pub fn next(&mut self) -> (r: Option<C>)
        ensures
            (final(self)@, r) == next_command(old(self)@),
        decreases old(self)@.len(),
    {
        match self.batches.pop() {
            None => {
                assert(old(self)@ =~= Seq::<Seq<C>>::empty());
                None
            },
            Some(mut batch) => {
                assert(old(self)@.drop_last() =~= self@);
                if batch.len() == 0 {
                    self.next()
                } else {
                    let c = batch.remove(0);
                    self.batches.push(batch);
                    assert(self@ =~= old(self)@.update(old(self)@.len() - 1, old(self)@.last().drop_first()));
                    Some(c)
                }
            },
        }
    }
}

/// The first command of a batch just added runs next.
pub proof fn lemma_new_batch_runs_first<C>(batches: Seq<Seq<C>>, batch: Seq<C>)
    requires
        batch.len() > 0,
    ensures
        next_command(batches.push(batch)).1 == Some(batch[0]),
        next_command(batches.push(batch)).0 == batches.push(batch.drop_first()),
{
    assert(batches.push(batch).update(batches.len() as int, batch.drop_first()) =~= batches.push(batch.drop_first()));
}

/// Adding a batch with no commands changes neither which command runs next nor what is left
/// to run after it; with no batches, there is nothing to run.
pub proof fn lemma_empty_batch_changes_nothing<C>(batches: Seq<Seq<C>>)
    ensures
        next_command(batches.push(Seq::<C>::empty())) == next_command(batches),
        next_command(Seq::<Seq<C>>::empty()) == (Seq::<Seq<C>>::empty(), None::<C>),
{
    assert(batches.push(Seq::<C>::empty()).drop_last() =~= batches);
}

/// The commands given by `k` rounds of taking the next command and then adding the batch of
/// commands it issued, when no command issues any.
pub open spec fn rounds_without_issues<C>(batches: Seq<Seq<C>>, k: nat) -> Seq<Option<C>>
    decreases k,
{
    if k == 0 {
        Seq::empty()
    } else {
        let step = next_command(batches);
        seq![step.1] + rounds_without_issues(step.0.push(Seq::<C>::empty()), (k - 1) as nat)
    }
}

/// Where no command issues further commands, the commands of a batch just added run one per
/// round, in the order they were issued, before anything added earlier.
pub proof fn lemma_batch_runs_in_order<C>(batches: Seq<Seq<C>>, batch: Seq<C>)
    ensures
        rounds_without_issues(batches.push(batch), batch.len()) == batch.map_values(|c: C| Some(c)),
{
    lemma_batch_rest_runs_in_order(batches, batch, 0);
    assert(batch.skip(0) =~= batch);
}

proof fn lemma_batch_rest_runs_in_order<C>(batches: Seq<Seq<C>>, batch: Seq<C>, i: nat)
    requires
        i <= batch.len(),
    ensures
        rounds_without_issues(batches.push(batch.skip(i as int)), (batch.len() - i) as nat)
            == batch.skip(i as int).map_values(|c: C| Some(c)),
    decreases batch.len() - i,
{
    let rest = batch.skip(i as int);
    if i == batch.len() {
        assert(rest.map_values(|c: C| Some(c)) =~= Seq::<Option<C>>::empty());
    } else {
        lemma_new_batch_runs_first(batches, rest);
        assert(rest.drop_first() =~= batch.skip(i + 1 as int));
        let after = batches.push(batch.skip(i + 1 as int));
        lemma_empty_batch_changes_nothing(after);
        lemma_batch_rest_runs_in_order(batches, batch, i + 1);
        let k = (batch.len() - i) as nat;
        if k > 1 {
            assert(rounds_without_issues(after.push(Seq::<C>::empty()), (k - 1) as nat)
                == rounds_without_issues(after, (k - 1) as nat));
        } else {
            assert(rounds_without_issues(after.push(Seq::<C>::empty()), 0) =~= rounds_without_issues(after, 0));
        }
        assert(rest.map_values(|c: C| Some(c)) =~= seq![Some(rest[0])] + batch.skip(i + 1 as int).map_values(
            |c: C| Some(c),
        ));
    }
}

/// Where a flush stands: draining the events sent while handling, then the queued events
/// once, then (if that found any) draining the events sent while handling again.
#[derive(Clone, Copy, PartialEq, Eq, Structural, Debug)]
pub enum FlushPhase {
    DrainingInProgress,
    Queued,
    DrainingAfterQueued,
    Finished,
}

/// A flush in progress: its phase and the passes over a queue made so far.
#[derive(Clone, Copy, PartialEq, Eq, Structural, Debug)]
pub struct FlushState {
    pub phase: FlushPhase,
    pub passes: usize,
}

/// What a flush asks for next: a pass over one of the queues, or to stop with the number of
/// passes made.
#[derive(Clone, Copy, PartialEq, Eq, Structural, Debug)]
pub enum FlushAction {
    /// Handle the events waiting in the in-progress queue (`true`) or in the queued one.
    Pass(bool),
    /// The flush is over after this many passes.
    Finish(usize),
}

/// The step of a flush after a pass that handled `handled` events.
pub open spec fn flush_step(state: FlushState, handled: usize) -> (FlushState, FlushAction) {
    let passes = (state.passes + 1) as usize;
    match state.phase {
        FlushPhase::DrainingInProgress => if handled > 0 {
            (FlushState { phase: FlushPhase::DrainingInProgress, passes }, FlushAction::Pass(true))
        } else {
            (FlushState { phase: FlushPhase::Queued, passes }, FlushAction::Pass(false))
        },
        FlushPhase::Queued => if handled > 0 {
            (FlushState { phase: FlushPhase::DrainingAfterQueued, passes }, FlushAction::Pass(true))
        } else {
            (FlushState { phase: FlushPhase::Finished, passes }, FlushAction::Finish(passes))
        },
        FlushPhase::DrainingAfterQueued => if handled > 0 {
            (FlushState { phase: FlushPhase::DrainingAfterQueued, passes }, FlushAction::Pass(true))
        } else {
            (FlushState { phase: FlushPhase::Finished, passes }, FlushAction::Finish(passes))
        },
        FlushPhase::Finished => (state, FlushAction::Finish(state.passes)),
    }
}

/// The course of a flush, one step at a time, for every state and count: each pass is counted
/// once; a pass that handled events is always followed by a pass over the in-progress queue,
/// and after the queued pass that drain happens again; the queued events get a pass exactly
/// when the first drain comes up empty; the flush ends, with its count of passes, only after
/// a pass that handled nothing, once the queued pass has been made; and it stays over.
pub proof fn lemma_flush_course(state: FlushState, handled: usize)
    requires
        state.passes < usize::MAX,
    ensures
        state.phase != FlushPhase::Finished ==> flush_step(state, handled).0.passes == state.passes + 1,
        state.phase != FlushPhase::Finished && handled > 0 ==> flush_step(state, handled).1 == FlushAction::Pass(true),
        state.phase == FlushPhase::DrainingInProgress && handled > 0 ==> flush_step(state, handled).0.phase
            == FlushPhase::DrainingInProgress,
        state.phase == FlushPhase::Queued && handled > 0 ==> flush_step(state, handled).0.phase
            == FlushPhase::DrainingAfterQueued,
        state.phase == FlushPhase::DrainingAfterQueued && handled > 0 ==> flush_step(state, handled).0.phase
            == FlushPhase::DrainingAfterQueued,
        flush_step(state, handled).1 == FlushAction::Pass(false) <==> (state.phase == FlushPhase::DrainingInProgress
            && handled == 0),
        flush_step(state, handled).1 == FlushAction::Pass(false) ==> flush_step(state, handled).0.phase
            == FlushPhase::Queued,
        (state.phase == FlushPhase::Queued || state.phase == FlushPhase::DrainingAfterQueued) && handled == 0
            ==> flush_step(state, handled) == (
            FlushState { phase: FlushPhase::Finished, passes: (state.passes + 1) as usize },
            FlushAction::Finish((state.passes + 1) as usize),
        ),
        state.phase != FlushPhase::Finished && flush_step(state, handled).1 is Finish ==> handled == 0
            && state.phase != FlushPhase::DrainingInProgress,
        flush_step(state, handled).1 is Finish <==> flush_step(state, handled).0.phase == FlushPhase::Finished,
        flush_step(state, handled).1 is Finish ==> flush_step(state, handled).1 == FlushAction::Finish(
            flush_step(state, handled).0.passes,
        ),
        state.phase == FlushPhase::Finished ==> flush_step(state, handled) == (state, FlushAction::Finish(
            state.passes,
        )),
{
}

impl FlushState {
    /// A flush begins with a pass over the in-progress queue.
    pub fn start() -> (r: (FlushState, FlushAction))
        ensures
            r == (FlushState { phase: FlushPhase::DrainingInProgress, passes: 0 }, FlushAction::Pass(true)),
    {
        (FlushState { phase: FlushPhase::DrainingInProgress, passes: 0 }, FlushAction::Pass(true))
    }

    /// The next step after a pass that handled `handled` events.
    pub fn next(self, handled: usize) -> (r: (FlushState, FlushAction))
        requires
            self.phase != FlushPhase::Finished ==> self.passes < usize::MAX,
        ensures
            r == flush_step(self, handled),
    {
        if self.phase == FlushPhase::Finished {
            return (self, FlushAction::Finish(self.passes));
        }
        let passes = self.passes + 1;
        match self.phase {
            FlushPhase::DrainingInProgress => if handled > 0 {
                (FlushState { phase: FlushPhase::DrainingInProgress, passes }, FlushAction::Pass(true))
            } else {
                (FlushState { phase: FlushPhase::Queued, passes }, FlushAction::Pass(false))
            },
            FlushPhase::Queued => if handled > 0 {
                (FlushState { phase: FlushPhase::DrainingAfterQueued, passes }, FlushAction::Pass(true))
            } else {
                (FlushState { phase: FlushPhase::Finished, passes }, FlushAction::Finish(passes))
            },
            FlushPhase::DrainingAfterQueued => if handled > 0 {
                (FlushState { phase: FlushPhase::DrainingAfterQueued, passes }, FlushAction::Pass(true))
            } else {
                (FlushState { phase: FlushPhase::Finished, passes }, FlushAction::Finish(passes))
            },
            FlushPhase::Finished => (self, FlushAction::Finish(self.passes)),
        }
    }
}

proof fn lemma_linear_execution_prefix_err(g: HandlerGraph, events: Seq<u64>, n: int)
    requires
        0 < n <= events.len(),
        linear_execution_spec(g, events.take(n)) is Err,
    ensures
        linear_execution_spec(g, events) == linear_execution_spec(g, events.take(n)),
    decreases events.len() - n,
{
    if n < events.len() {
        assert(events.take(n + 1).drop_last() =~= events.take(n));
        assert(linear_execution_spec(g, events.take(n + 1)) == linear_execution_spec(g, events.take(n)));
        lemma_linear_execution_prefix_err(g, events, n + 1);
    } else {
        assert(events.take(n) =~= events);
    }
}

} // verus!
