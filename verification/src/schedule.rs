use vstd::prelude::*;

use crate::event_handler::EventHandler;
use crate::maps::{compatibility_key, handlers_of};
use crate::{Dependency, EventHandlerExecution};

verus! {

/// What ordering the handlers of an event depends on: the handlers listed for each event
/// type, the registered handlers, and the dependencies of each registered system.
pub struct HandlerGraph {
    pub handlers: Map<u64, Seq<EventHandler>>,
    pub registered: Set<EventHandler>,
    pub dependencies: Map<u64, Seq<Dependency>>,
}

/// Why no execution order could be formed.
#[derive(Clone, Copy, PartialEq, Eq, Structural, Debug)]
pub enum PlanError {
    /// A handler is reached again through the handlers it waits for.
    DependencyCycle,
    /// A handler belongs to a system that is not registered.
    MissingEventSystem(u64),
}

/// The handler of the system `dep` for the same event as `h`.
pub open spec fn dependency_handler(dep: Dependency, h: EventHandler) -> EventHandler {
    EventHandler { event_system_type_id: dep.type_id, event_type_id: h.event_type_id }
}

/// Places `h` after `out`, preceded by the registered handlers of its dependencies for the
/// same event (each placed the same way, in the order the dependencies are listed); a handler
/// already in `out` is not placed again. `path` holds the handlers being placed around `h`.
pub open spec fn visit(
    g: HandlerGraph,
    h: EventHandler,
    path: Seq<EventHandler>,
    fuel: nat,
    out: Seq<EventHandler>,
) -> Result<Seq<EventHandler>, PlanError>
    decreases fuel, 0int,
{
    if out.contains(h) {
        Ok(out)
    } else if fuel == 0 || path.contains(h) {
        Err(PlanError::DependencyCycle)
    } else if !g.dependencies.contains_key(h.event_system_type_id) {
        Err(PlanError::MissingEventSystem(h.event_system_type_id))
    } else {
        match visit_dependencies(
            g,
            h,
            g.dependencies[h.event_system_type_id],
            0,
            path.push(h),
            (fuel - 1) as nat,
            out,
        ) {
            Ok(o) => Ok(o.push(h)),
            Err(e) => Err(e),
        }
    }
}

/// Places the registered handlers of `deps[j..]` for the event of `h`, in order.
pub open spec fn visit_dependencies(
    g: HandlerGraph,
    h: EventHandler,
    deps: Seq<Dependency>,
    j: nat,
    path: Seq<EventHandler>,
    fuel: nat,
    out: Seq<EventHandler>,
) -> Result<Seq<EventHandler>, PlanError>
    decreases fuel, deps.len() + 1 - j,
{
    if j >= deps.len() {
        Ok(out)
    } else {
        let d = dependency_handler(deps[j as int], h);
        if g.registered.contains(d) {
            match visit(g, d, path, fuel, out) {
                Ok(o) => visit_dependencies(g, h, deps, j + 1, path, fuel, o),
                Err(e) => Err(e),
            }
        } else {
            visit_dependencies(g, h, deps, j + 1, path, fuel, out)
        }
    }
}

/// Places the handlers `roots[i..]` in order.
pub open spec fn visit_all(
    g: HandlerGraph,
    roots: Seq<EventHandler>,
    i: nat,
    fuel: nat,
    out: Seq<EventHandler>,
) -> Result<Seq<EventHandler>, PlanError>
    decreases roots.len() - i,
{
    if i >= roots.len() {
        Ok(out)
    } else {
        match visit(g, roots[i as int], Seq::empty(), fuel, out) {
            Ok(o) => visit_all(g, roots, i + 1, fuel, o),
            Err(e) => Err(e),
        }
    }
}

/// The order in which the handlers run for one event of type `e`: its handlers in
/// registration order, each after the handlers it waits for.
pub open spec fn event_order(g: HandlerGraph, e: u64) -> Result<Seq<EventHandler>, PlanError> {
    visit_all(g, handlers_of(g.handlers, e), 0, g.registered.len(), Seq::empty())
}

/// The executions of `order` for the event at position `event` of the batch.
pub open spec fn executions_for(order: Seq<EventHandler>, event: int) -> Seq<EventHandlerExecution> {
    order.map_values(|h: EventHandler| EventHandlerExecution { event_handler: h, event: event as usize })
}

/// The handler executions for a batch of events, event by event; the first event whose
/// handlers cannot be ordered decides the error.
pub open spec fn linear_execution_spec(g: HandlerGraph, events: Seq<u64>) -> Result<
    Seq<EventHandlerExecution>,
    PlanError,
>
    decreases events.len(),
{
    if events.len() == 0 {
        Ok(Seq::empty())
    } else {
        match linear_execution_spec(g, events.drop_last()) {
            Err(e) => Err(e),
            Ok(prev) => match event_order(g, events.last()) {
                Err(e) => Err(e),
                Ok(o) => Ok(prev + executions_for(o, events.len() - 1)),
            },
        }
    }
}

/// Whether an execution is for the event at position `i` of its batch.
pub open spec fn at_event(i: int) -> spec_fn(EventHandlerExecution) -> bool {
    |x: EventHandlerExecution| x.event == i
}

proof fn lemma_filter_keeps_all(s: Seq<EventHandlerExecution>, p: spec_fn(EventHandlerExecution) -> bool)
    requires
        forall|k: int| 0 <= k < s.len() ==> p(#[trigger] s[k]),
    ensures
        s.filter(p) == s,
    decreases s.len(),
{
    reveal_with_fuel(Seq::filter, 1);
    if s.len() > 0 {
        lemma_filter_keeps_all(s.drop_last(), p);
        assert(s.drop_last().push(s.last()) =~= s);
    } else {
        assert(s.filter(p) =~= s);
    }
}

proof fn lemma_filter_keeps_none(s: Seq<EventHandlerExecution>, p: spec_fn(EventHandlerExecution) -> bool)
    requires
        forall|k: int| 0 <= k < s.len() ==> !p(#[trigger] s[k]),
    ensures
        s.filter(p) == Seq::<EventHandlerExecution>::empty(),
    decreases s.len(),
{
    reveal_with_fuel(Seq::filter, 1);
    if s.len() > 0 {
        lemma_filter_keeps_none(s.drop_last(), p);
    } else {
        assert(s.filter(p) =~= Seq::<EventHandlerExecution>::empty());
    }
}

/// A batch of events is planned exactly when every event in it gets an order. Then, for every
/// position `i` of the batch, whatever the types of the other events, the executions planned for
/// the event at `i` are that event's order, each tagged with `i`; and the events are run in batch
/// order. Otherwise the error is that of the first event without an order.
pub proof fn lemma_linear_execution_per_event(g: HandlerGraph, events: Seq<u64>)
    requires
        events.len() <= usize::MAX,
    ensures
        linear_execution_spec(g, events) is Ok <==> forall|i: int| 0 <= i < events.len() ==> (#[trigger] event_order(
            g,
            events[i],
        )) is Ok,
        linear_execution_spec(g, events) matches Ok(plan) ==> {
            &&& forall|i: int| 0 <= i < events.len() ==> #[trigger] plan.filter(at_event(i)) == executions_for(
                event_order(g, events[i])->Ok_0,
                i,
            )
            &&& forall|k: int| 0 <= k < plan.len() ==> (#[trigger] plan[k]).event < events.len()
            &&& forall|k: int, l: int| 0 <= k < l < plan.len() ==> (#[trigger] plan[k]).event <= (#[trigger] plan[l]).event
        },
        linear_execution_spec(g, events) matches Err(e) ==> exists|i: int| {
            &&& 0 <= i < events.len()
            &&& #[trigger] event_order(g, events[i]) == Err::<Seq<EventHandler>, PlanError>(e)
            &&& forall|j: int| 0 <= j < i ==> (#[trigger] event_order(g, events[j])) is Ok
        },
    decreases events.len(),
{
    if events.len() > 0 {
        let n = events.len() - 1;
        let front = events.drop_last();
        lemma_linear_execution_per_event(g, front);
        assert(forall|i: int| 0 <= i < n ==> #[trigger] front[i] == events[i]);
        assert(events.last() == events[n]);
        match linear_execution_spec(g, front) {
            Err(e) => {
                let i = choose|i: int| {
                    &&& 0 <= i < front.len()
                    &&& #[trigger] event_order(g, front[i]) == Err::<Seq<EventHandler>, PlanError>(e)
                    &&& forall|j: int| 0 <= j < i ==> (#[trigger] event_order(g, front[j])) is Ok
                };
                assert(event_order(g, events[i]) == Err::<Seq<EventHandler>, PlanError>(e));
                assert forall|j: int| 0 <= j < i implies (#[trigger] event_order(g, events[j])) is Ok by {
                    assert(event_order(g, front[j]) is Ok);
                }
            },
            Ok(prev) => {
                assert(forall|i: int| 0 <= i < n ==> (#[trigger] event_order(g, events[i])) is Ok) by {
                    assert forall|i: int| 0 <= i < n implies (#[trigger] event_order(g, events[i])) is Ok by {
                        assert(event_order(g, front[i]) is Ok);
                    }
                }
                match event_order(g, events.last()) {
                    Err(e) => {
                        assert(event_order(g, events[n]) == Err::<Seq<EventHandler>, PlanError>(e));
                    },
                    Ok(o) => {
                        let ex = executions_for(o, n);
                        let plan = prev + ex;
                        assert(linear_execution_spec(g, events) == Ok::<Seq<EventHandlerExecution>, PlanError>(plan));
                        assert forall|k: int| 0 <= k < ex.len() implies (#[trigger] ex[k]).event == n by {}
                        assert forall|i: int| 0 <= i < events.len() implies #[trigger] plan.filter(at_event(i))
                            == executions_for(event_order(g, events[i])->Ok_0, i) by {
                            Seq::filter_distributes_over_add(prev, ex, at_event(i));
                            if i < n {
                                assert(front[i] == events[i]);
                                assert(prev.filter(at_event(i)) == executions_for(event_order(g, front[i])->Ok_0, i));
                                lemma_filter_keeps_none(ex, at_event(i));
                                assert(plan.filter(at_event(i)) =~= prev.filter(at_event(i)));
                            } else {
                                assert forall|k: int| 0 <= k < prev.len() implies !at_event(i)(#[trigger] prev[k]) by {
                                    assert(prev[k].event < front.len());
                                }
                                lemma_filter_keeps_none(prev, at_event(i));
                                lemma_filter_keeps_all(ex, at_event(i));
                                assert(plan.filter(at_event(i)) =~= ex);
                            }
                        }
                        assert forall|k: int| 0 <= k < plan.len() implies (#[trigger] plan[k]).event < events.len() by {
                            if k < prev.len() {
                                assert(plan[k] == prev[k]);
                            } else {
                                assert(plan[k] == ex[k - prev.len()]);
                            }
                        }
                        assert forall|k: int, l: int| 0 <= k < l < plan.len() implies (#[trigger] plan[k]).event
                            <= (#[trigger] plan[l]).event by {
                            if l < prev.len() {
                                assert(plan[k] == prev[k] && plan[l] == prev[l]);
                            } else if k < prev.len() {
                                assert(plan[k] == prev[k]);
                                assert(prev[k].event < front.len());
                                assert(plan[l] == ex[l - prev.len()]);
                            } else {
                                assert(plan[k] == ex[k - prev.len()]);
                                assert(plan[l] == ex[l - prev.len()]);
                            }
                        }
                    },
                }
            },
        }
    }
}

/// `d` is a registered handler that `h` waits for: the handler of one of the dependencies of
/// `h`'s system, for the same event.
pub open spec fn waits_for(g: HandlerGraph, h: EventHandler, d: EventHandler) -> bool {
    &&& g.dependencies.contains_key(h.event_system_type_id)
    &&& g.registered.contains(d)
    &&& exists|j: int|
        0 <= j < g.dependencies[h.event_system_type_id].len() && d == dependency_handler(
            #[trigger] g.dependencies[h.event_system_type_id][j],
            h,
        )
}

/// Every handler in `order` comes after each registered handler it waits for.
pub open spec fn dependencies_first(g: HandlerGraph, order: Seq<EventHandler>) -> bool {
    forall|i: int, d: EventHandler|
        0 <= i < order.len() && #[trigger] waits_for(g, order[i], d) ==> #[trigger] order.take(i).contains(d)
}

/// What placing handlers after `out` keeps: no handler twice, each after those it waits for,
/// `out` in front; the handlers it adds are registered, for the event `e`, and not in `path`.
pub open spec fn extends_well(
    g: HandlerGraph,
    out: Seq<EventHandler>,
    o: Seq<EventHandler>,
    path: Seq<EventHandler>,
    e: u64,
) -> bool {
    &&& o.no_duplicates()
    &&& dependencies_first(g, o)
    &&& out.is_prefix_of(o)
    &&& forall|x: EventHandler|
        #[trigger] o.contains(x) && !out.contains(x) ==> !path.contains(x) && x.event_type_id == e
            && g.registered.contains(x)
}

proof fn lemma_prefix_contains(a: Seq<EventHandler>, b: Seq<EventHandler>, x: EventHandler)
    requires
        a.is_prefix_of(b),
        a.contains(x),
    ensures
        b.contains(x),
{
    let i = choose|i: int| 0 <= i < a.len() && a[i] == x;
    assert(b[i] == x);
}

proof fn lemma_extends_trans(
    g: HandlerGraph,
    a: Seq<EventHandler>,
    b: Seq<EventHandler>,
    c: Seq<EventHandler>,
    path: Seq<EventHandler>,
    e: u64,
)
    requires
        extends_well(g, a, b, path, e),
        extends_well(g, b, c, path, e),
    ensures
        extends_well(g, a, c, path, e),
{
    assert forall|x: EventHandler| #[trigger] c.contains(x) && !a.contains(x) implies !path.contains(x)
        && x.event_type_id == e && g.registered.contains(x) by {
        if b.contains(x) {
        } else {
        }
    }
    assert(a.is_prefix_of(c)) by {
        assert forall|i: int| 0 <= i < a.len() implies a[i] == c[i] by {
            assert(b[i] == a[i]);
        }
    }
}

proof fn lemma_visit(g: HandlerGraph, h: EventHandler, path: Seq<EventHandler>, fuel: nat, out: Seq<EventHandler>)
    requires
        out.no_duplicates(),
        dependencies_first(g, out),
        g.registered.contains(h),
    ensures
        visit(g, h, path, fuel, out) matches Ok(o) ==> extends_well(g, out, o, path, h.event_type_id)
            && o.contains(h),
    decreases fuel, 0int,
{
    if out.contains(h) {
        assert(out.is_prefix_of(out));
    } else if fuel == 0 || path.contains(h) {
    } else if !g.dependencies.contains_key(h.event_system_type_id) {
    } else {
        let deps = g.dependencies[h.event_system_type_id];
        let p2 = path.push(h);
        lemma_visit_dependencies(g, h, deps, 0, p2, (fuel - 1) as nat, out);
        match visit_dependencies(g, h, deps, 0, p2, (fuel - 1) as nat, out) {
            Ok(o1) => {
                let o = o1.push(h);
                assert(!o1.contains(h)) by {
                    if o1.contains(h) {
                        assert(p2.contains(h)) by {
                            assert(p2[p2.len() - 1] == h);
                        }
                    }
                }
                assert(o.no_duplicates()) by {
                    assert forall|a: int, b: int| 0 <= a < o.len() && 0 <= b < o.len() && a != b implies o[a] != o[b] by {
                        if a == o1.len() {
                            assert(o1.contains(o[b]));
                        } else if b == o1.len() {
                            assert(o1.contains(o[a]));
                        }
                    }
                }
                assert(dependencies_first(g, o)) by {
                    assert forall|i: int, d: EventHandler|
                        0 <= i < o.len() && #[trigger] waits_for(g, o[i], d) implies #[trigger] o.take(i).contains(d) by {
                        if i == o1.len() {
                            let j = choose|j: int|
                                0 <= j < g.dependencies[h.event_system_type_id].len() && d == dependency_handler(
                                    #[trigger] g.dependencies[h.event_system_type_id][j],
                                    h,
                                );
                            assert(o1.contains(d));
                            assert(o.take(i) =~= o1);
                        } else {
                            assert(o.take(i) =~= o1.take(i));
                            assert(o[i] == o1[i]);
                        }
                    }
                }
                assert(out.is_prefix_of(o)) by {
                    assert forall|i: int| 0 <= i < out.len() implies out[i] == o[i] by {
                        assert(o1[i] == out[i]);
                    }
                }
                assert forall|x: EventHandler| #[trigger] o.contains(x) && !out.contains(x) implies !path.contains(x)
                    && x.event_type_id == h.event_type_id && g.registered.contains(x) by {
                    if x != h {
                        let i = choose|i: int| 0 <= i < o.len() && o[i] == x;
                        assert(o1.contains(x)) by {
                            assert(i < o1.len());
                            assert(o1[i] == x);
                        }
                        if path.contains(x) {
                            let k = choose|k: int| 0 <= k < path.len() && path[k] == x;
                            assert(p2[k] == x);
                        }
                    }
                }
                assert(o.contains(h)) by {
                    assert(o[o1.len() as int] == h);
                }
            },
            Err(_) => {},
        }
    }
}

proof fn lemma_visit_dependencies(
    g: HandlerGraph,
    h: EventHandler,
    deps: Seq<Dependency>,
    j: nat,
    path: Seq<EventHandler>,
    fuel: nat,
    out: Seq<EventHandler>,
)
    requires
        out.no_duplicates(),
        dependencies_first(g, out),
    ensures
        visit_dependencies(g, h, deps, j, path, fuel, out) matches Ok(o) ==> {
            &&& extends_well(g, out, o, path, h.event_type_id)
            &&& forall|k: int|
                j <= k < deps.len() && g.registered.contains(dependency_handler(deps[k], h)) ==> o.contains(
                    #[trigger] dependency_handler(deps[k], h),
                )
        },
    decreases fuel, deps.len() + 1 - j,
{
    if j >= deps.len() {
        assert(out.is_prefix_of(out));
    } else {
        let d = dependency_handler(deps[j as int], h);
        if g.registered.contains(d) {
            lemma_visit(g, d, path, fuel, out);
            match visit(g, d, path, fuel, out) {
                Ok(o1) => {
                    lemma_visit_dependencies(g, h, deps, j + 1, path, fuel, o1);
                    match visit_dependencies(g, h, deps, j + 1, path, fuel, o1) {
                        Ok(o) => {
                            lemma_extends_trans(g, out, o1, o, path, h.event_type_id);
                            lemma_prefix_contains(o1, o, d);
                        },
                        Err(_) => {},
                    }
                },
                Err(_) => {},
            }
        } else {
            lemma_visit_dependencies(g, h, deps, j + 1, path, fuel, out);
        }
    }
}

proof fn lemma_visit_all(g: HandlerGraph, roots: Seq<EventHandler>, i: nat, fuel: nat, out: Seq<EventHandler>, e: u64)
    requires
        out.no_duplicates(),
        dependencies_first(g, out),
        forall|k: int| 0 <= k < roots.len() ==> g.registered.contains(#[trigger] roots[k]) && roots[k].event_type_id == e,
    ensures
        visit_all(g, roots, i, fuel, out) matches Ok(o) ==> {
            &&& extends_well(g, out, o, Seq::empty(), e)
            &&& forall|k: int| i <= k < roots.len() ==> o.contains(#[trigger] roots[k])
        },
    decreases roots.len() - i,
{
    if i >= roots.len() {
        assert(out.is_prefix_of(out));
    } else {
        let h = roots[i as int];
        lemma_visit(g, h, Seq::empty(), fuel, out);
        match visit(g, h, Seq::empty(), fuel, out) {
            Ok(o1) => {
                lemma_visit_all(g, roots, i + 1, fuel, o1, e);
                match visit_all(g, roots, i + 1, fuel, o1) {
                    Ok(o) => {
                        lemma_extends_trans(g, out, o1, o, Seq::empty(), e);
                        lemma_prefix_contains(o1, o, h);
                    },
                    Err(_) => {},
                }
            },
            Err(_) => {},
        }
    }
}

/// The order formed for one event of type `e` runs no handler twice, runs every handler
/// registered for `e`, runs only registered handlers for `e`, and runs each handler after
/// every registered handler it waits for. (Each handler listed for `e` must be registered
/// and handle `e`, as the registry keeps them.)
pub proof fn lemma_event_order_sound(g: HandlerGraph, e: u64)
    requires
        forall|k: int|
            0 <= k < handlers_of(g.handlers, e).len() ==> g.registered.contains(
                #[trigger] handlers_of(g.handlers, e)[k],
            ) && handlers_of(g.handlers, e)[k].event_type_id == e,
    ensures
        event_order(g, e) matches Ok(o) ==> {
            &&& o.no_duplicates()
            &&& dependencies_first(g, o)
            &&& forall|k: int| 0 <= k < handlers_of(g.handlers, e).len() ==> o.contains(
                #[trigger] handlers_of(g.handlers, e)[k],
            )
            &&& forall|k: int| 0 <= k < o.len() ==> (#[trigger] o[k]).event_type_id == e && g.registered.contains(o[k])
        },
{
    let roots = handlers_of(g.handlers, e);
    let empty = Seq::<EventHandler>::empty();
    assert(dependencies_first(g, empty));
    lemma_visit_all(g, roots, 0, g.registered.len(), empty, e);
    match event_order(g, e) {
        Ok(o) => {
            assert forall|k: int| 0 <= k < o.len() implies (#[trigger] o[k]).event_type_id == e
                && g.registered.contains(o[k]) by {
                assert(o.contains(o[k]));
            }
        },
        Err(_) => {},
    }
}

/// `rank` strictly decreases from each handler to every handler it waits for; where such a
/// rank exists, no handler waits for itself, directly or through others.
pub open spec fn ranked(g: HandlerGraph, rank: spec_fn(EventHandler) -> nat) -> bool {
    forall|h: EventHandler, d: EventHandler| #[trigger] waits_for(g, h, d) ==> rank(d) < rank(h)
}

proof fn lemma_path_fits(g: HandlerGraph, path: Seq<EventHandler>, h: EventHandler)
    requires
        g.registered.finite(),
        path.no_duplicates(),
        forall|k: int| 0 <= k < path.len() ==> g.registered.contains(#[trigger] path[k]),
        g.registered.contains(h),
        !path.contains(h),
    ensures
        path.len() + 1 <= g.registered.len(),
{
    let p2 = path.push(h);
    assert(p2.no_duplicates()) by {
        assert forall|a: int, b: int| 0 <= a < p2.len() && 0 <= b < p2.len() && a != b implies p2[a] != p2[b] by {
            if a == path.len() {
                assert(path.contains(p2[b]) || b == path.len());
            } else if b == path.len() {
                assert(path.contains(p2[a]));
            }
        }
    }
    p2.unique_seq_to_set();
    assert(p2.to_set().subset_of(g.registered)) by {
        assert forall|x: EventHandler| p2.to_set().contains(x) implies g.registered.contains(x) by {
            let k = choose|k: int| 0 <= k < p2.len() && p2[k] == x;
            if k < path.len() {
                assert(path[k] == x);
            }
        }
    }
    vstd::set_lib::lemma_len_subset(p2.to_set(), g.registered);
}

proof fn lemma_visit_no_cycle(
    g: HandlerGraph,
    rank: spec_fn(EventHandler) -> nat,
    h: EventHandler,
    path: Seq<EventHandler>,
    fuel: nat,
    out: Seq<EventHandler>,
)
    requires
        ranked(g, rank),
        g.registered.finite(),
        g.registered.contains(h),
        path.no_duplicates(),
        forall|k: int| 0 <= k < path.len() ==> g.registered.contains(#[trigger] path[k]) && rank(path[k]) > rank(h),
        fuel + path.len() == g.registered.len(),
    ensures
        visit(g, h, path, fuel, out) != Err::<Seq<EventHandler>, PlanError>(PlanError::DependencyCycle),
    decreases fuel, 0int,
{
    assert(!path.contains(h)) by {
        if path.contains(h) {
            let k = choose|k: int| 0 <= k < path.len() && path[k] == h;
        }
    }
    if out.contains(h) {
    } else if fuel == 0 {
        lemma_path_fits(g, path, h);
    } else if !g.dependencies.contains_key(h.event_system_type_id) {
    } else {
        let p2 = path.push(h);
        assert(p2.no_duplicates()) by {
            assert forall|a: int, b: int| 0 <= a < p2.len() && 0 <= b < p2.len() && a != b implies p2[a] != p2[b] by {
                if a == path.len() {
                    assert(path.contains(p2[b]) || b == path.len());
                } else if b == path.len() {
                    assert(path.contains(p2[a]));
                }
            }
        }
        lemma_visit_dependencies_no_cycle(g, rank, h, g.dependencies[h.event_system_type_id], 0, p2, (fuel - 1) as nat, out);
    }
}

proof fn lemma_visit_dependencies_no_cycle(
    g: HandlerGraph,
    rank: spec_fn(EventHandler) -> nat,
    h: EventHandler,
    deps: Seq<Dependency>,
    j: nat,
    path: Seq<EventHandler>,
    fuel: nat,
    out: Seq<EventHandler>,
)
    requires
        ranked(g, rank),
        g.registered.finite(),
        g.dependencies.contains_key(h.event_system_type_id),
        deps == g.dependencies[h.event_system_type_id],
        path.no_duplicates(),
        forall|k: int| 0 <= k < path.len() ==> g.registered.contains(#[trigger] path[k]) && rank(path[k]) >= rank(h),
        fuel + path.len() == g.registered.len(),
    ensures
        visit_dependencies(g, h, deps, j, path, fuel, out) != Err::<Seq<EventHandler>, PlanError>(
            PlanError::DependencyCycle,
        ),
    decreases fuel, deps.len() + 1 - j,
{
    if j < deps.len() {
        let d = dependency_handler(deps[j as int], h);
        if g.registered.contains(d) {
            assert(waits_for(g, h, d)) by {
                assert(d == dependency_handler(g.dependencies[h.event_system_type_id][j as int], h));
            }
            assert(rank(d) < rank(h));
            lemma_visit_no_cycle(g, rank, d, path, fuel, out);
            match visit(g, d, path, fuel, out) {
                Ok(o1) => {
                    lemma_visit_dependencies_no_cycle(g, rank, h, deps, j + 1, path, fuel, o1);
                },
                Err(_) => {},
            }
        } else {
            lemma_visit_dependencies_no_cycle(g, rank, h, deps, j + 1, path, fuel, out);
        }
    }
}

proof fn lemma_visit_all_no_cycle(
    g: HandlerGraph,
    rank: spec_fn(EventHandler) -> nat,
    roots: Seq<EventHandler>,
    i: nat,
    out: Seq<EventHandler>,
)
    requires
        ranked(g, rank),
        g.registered.finite(),
        forall|k: int| 0 <= k < roots.len() ==> g.registered.contains(#[trigger] roots[k]),
    ensures
        visit_all(g, roots, i, g.registered.len(), out) != Err::<Seq<EventHandler>, PlanError>(
            PlanError::DependencyCycle,
        ),
    decreases roots.len() - i,
{
    if i < roots.len() {
        lemma_visit_no_cycle(g, rank, roots[i as int], Seq::empty(), g.registered.len(), out);
        match visit(g, roots[i as int], Seq::empty(), g.registered.len(), out) {
            Ok(o1) => {
                lemma_visit_all_no_cycle(g, rank, roots, i + 1, o1);
            },
            Err(_) => {},
        }
    }
}

/// Where no registered handler waits for itself, directly or through others, ordering the
/// handlers of an event never fails for a cycle: it fails only where a handler's system is not
/// registered.
pub proof fn lemma_acyclic_event_order(g: HandlerGraph, e: u64, rank: spec_fn(EventHandler) -> nat)
    requires
        ranked(g, rank),
        g.registered.finite(),
        forall|k: int|
            0 <= k < handlers_of(g.handlers, e).len() ==> g.registered.contains(
                #[trigger] handlers_of(g.handlers, e)[k],
            ),
    ensures
        event_order(g, e) != Err::<Seq<EventHandler>, PlanError>(PlanError::DependencyCycle),
{
    lemma_visit_all_no_cycle(g, rank, handlers_of(g.handlers, e), 0, Seq::empty());
}

/// Where no registered handler waits for itself, directly or through others, planning a batch
/// of events never fails for a cycle.
pub proof fn lemma_acyclic_linear_execution(g: HandlerGraph, events: Seq<u64>, rank: spec_fn(EventHandler) -> nat)
    requires
        ranked(g, rank),
        g.registered.finite(),
        forall|e: u64, k: int|
            0 <= k < handlers_of(g.handlers, e).len() ==> g.registered.contains(
                #[trigger] handlers_of(g.handlers, e)[k],
            ),
    ensures
        linear_execution_spec(g, events) != Err::<Seq<EventHandlerExecution>, PlanError>(
            PlanError::DependencyCycle,
        ),
    decreases events.len(),
{
    if events.len() > 0 {
        lemma_acyclic_linear_execution(g, events.drop_last(), rank);
        lemma_acyclic_event_order(g, events.last(), rank);
    }
}

/// `y` is `x`, or a handler that `x` waits for, directly or through others, in at most `n` steps.
pub open spec fn reaches(g: HandlerGraph, x: EventHandler, y: EventHandler, n: nat) -> bool
    decreases n,
{
    x == y || (n > 0 && exists|d: EventHandler| #[trigger] waits_for(g, x, d) && reaches(g, d, y, (n - 1) as nat))
}

/// `y` is `x`, or `x` waits for `y`, directly or through others.
pub open spec fn waits_through(g: HandlerGraph, x: EventHandler, y: EventHandler) -> bool {
    exists|n: nat| #[trigger] reaches(g, x, y, n)
}

proof fn lemma_visit_adds_reachable(g: HandlerGraph, h: EventHandler, path: Seq<EventHandler>, fuel: nat, out: Seq<EventHandler>)
    ensures
        visit(g, h, path, fuel, out) matches Ok(o) ==> forall|x: EventHandler|
            #[trigger] o.contains(x) && !out.contains(x) ==> waits_through(g, h, x),
    decreases fuel, 0int,
{
    if out.contains(h) {
    } else if fuel == 0 || path.contains(h) {
    } else if !g.dependencies.contains_key(h.event_system_type_id) {
    } else {
        let deps = g.dependencies[h.event_system_type_id];
        lemma_visit_dependencies_adds_reachable(g, h, deps, 0, path.push(h), (fuel - 1) as nat, out);
        match visit_dependencies(g, h, deps, 0, path.push(h), (fuel - 1) as nat, out) {
            Ok(o1) => {
                let o = o1.push(h);
                assert forall|x: EventHandler| #[trigger] o.contains(x) && !out.contains(x) implies waits_through(g, h, x) by {
                    if x == h {
                        assert(reaches(g, h, x, 0));
                    } else {
                        let i = choose|i: int| 0 <= i < o.len() && o[i] == x;
                        assert(o1[i] == x);
                        assert(o1.contains(x));
                        let d = choose|d: EventHandler| #[trigger] waits_for(g, h, d) && waits_through(g, d, x);
                        let n = choose|n: nat| #[trigger] reaches(g, d, x, n);
                        assert(reaches(g, h, x, n + 1));
                    }
                }
            },
            Err(_) => {},
        }
    }
}

proof fn lemma_visit_dependencies_adds_reachable(
    g: HandlerGraph,
    h: EventHandler,
    deps: Seq<Dependency>,
    j: nat,
    path: Seq<EventHandler>,
    fuel: nat,
    out: Seq<EventHandler>,
)
    requires
        g.dependencies.contains_key(h.event_system_type_id),
        deps == g.dependencies[h.event_system_type_id],
    ensures
        visit_dependencies(g, h, deps, j, path, fuel, out) matches Ok(o) ==> forall|x: EventHandler|
            #[trigger] o.contains(x) && !out.contains(x) ==> exists|d: EventHandler|
                #[trigger] waits_for(g, h, d) && waits_through(g, d, x),
    decreases fuel, deps.len() + 1 - j,
{
    if j < deps.len() {
        let d = dependency_handler(deps[j as int], h);
        if g.registered.contains(d) {
            lemma_visit_adds_reachable(g, d, path, fuel, out);
            match visit(g, d, path, fuel, out) {
                Ok(o1) => {
                    lemma_visit_dependencies_adds_reachable(g, h, deps, j + 1, path, fuel, o1);
                    match visit_dependencies(g, h, deps, j + 1, path, fuel, o1) {
                        Ok(o) => {
                            assert forall|x: EventHandler| #[trigger] o.contains(x) && !out.contains(x) implies exists|d2: EventHandler|
                                #[trigger] waits_for(g, h, d2) && waits_through(g, d2, x) by {
                                if o1.contains(x) {
                                    assert(d == dependency_handler(g.dependencies[h.event_system_type_id][j as int], h));
                                    assert(waits_for(g, h, d) && waits_through(g, d, x));
                                }
                            }
                        },
                        Err(_) => {},
                    }
                },
                Err(_) => {},
            }
        } else {
            lemma_visit_dependencies_adds_reachable(g, h, deps, j + 1, path, fuel, out);
        }
    }
}

/// The dependencies of a handler are placed in the order they are listed: where `deps[a]` comes
/// before `deps[b]`, both have registered handlers for the event, the handler of `deps[b]` is not
/// placed yet, and it is reached from none of the handlers of `deps[j..=a]` (it is none of them,
/// and none waits for it, directly or through others), the handler of `deps[a]` is placed before
/// that of `deps[b]`.
pub proof fn lemma_dependencies_placed_in_listed_order(
    g: HandlerGraph,
    h: EventHandler,
    deps: Seq<Dependency>,
    j: nat,
    path: Seq<EventHandler>,
    fuel: nat,
    out: Seq<EventHandler>,
    a: int,
    b: int,
)
    requires
        out.no_duplicates(),
        dependencies_first(g, out),
        g.dependencies.contains_key(h.event_system_type_id),
        deps == g.dependencies[h.event_system_type_id],
        j <= a < b < deps.len(),
        g.registered.contains(dependency_handler(deps[a], h)),
        g.registered.contains(dependency_handler(deps[b], h)),
        !out.contains(dependency_handler(deps[b], h)),
        forall|k: int| j <= k <= a ==> !waits_through(g, #[trigger] dependency_handler(deps[k], h), dependency_handler(deps[b], h)),
    ensures
        visit_dependencies(g, h, deps, j, path, fuel, out) matches Ok(o) ==> exists|p: int, q: int|
            0 <= p < q < o.len() && #[trigger] o[p] == dependency_handler(deps[a], h) && #[trigger] o[q]
                == dependency_handler(deps[b], h),
    decreases deps.len() - j,
{
    let dj = dependency_handler(deps[j as int], h);
    let db = dependency_handler(deps[b], h);
    if g.registered.contains(dj) {
        lemma_visit(g, dj, path, fuel, out);
        lemma_visit_adds_reachable(g, dj, path, fuel, out);
        match visit(g, dj, path, fuel, out) {
            Ok(o1) => {
                assert(!o1.contains(db)) by {
                    if o1.contains(db) {
                        assert(waits_through(g, dj, db));
                    }
                }
                lemma_visit_dependencies(g, h, deps, j + 1, path, fuel, o1);
                if a == j {
                    match visit_dependencies(g, h, deps, j + 1, path, fuel, o1) {
                        Ok(o) => {
                            let p = choose|p: int| 0 <= p < o1.len() && o1[p] == dj;
                            assert(o.contains(dependency_handler(deps[b], h)));
                            let q = choose|q: int| 0 <= q < o.len() && o[q] == db;
                            assert(o[p] == o1[p]);
                            if q < o1.len() {
                                assert(o1[q] == db);
                                assert(o1.contains(db));
                            }
                            assert(0 <= p < q < o.len() && o[p] == dependency_handler(deps[a], h) && o[q] == db);
                        },
                        Err(_) => {},
                    }
                } else {
                    lemma_dependencies_placed_in_listed_order(g, h, deps, j + 1, path, fuel, o1, a, b);
                }
            },
            Err(_) => {},
        }
    } else {
        lemma_dependencies_placed_in_listed_order(g, h, deps, j + 1, path, fuel, out, a, b);
    }
}

/// Placing a handler places the handlers of its system's dependencies in the order they are
/// listed, under the conditions of `lemma_dependencies_placed_in_listed_order`.
pub proof fn lemma_visit_places_dependencies_in_listed_order(
    g: HandlerGraph,
    h: EventHandler,
    path: Seq<EventHandler>,
    fuel: nat,
    out: Seq<EventHandler>,
    a: int,
    b: int,
)
    requires
        out.no_duplicates(),
        dependencies_first(g, out),
        g.dependencies.contains_key(h.event_system_type_id),
        0 <= a < b < g.dependencies[h.event_system_type_id].len(),
        g.registered.contains(dependency_handler(g.dependencies[h.event_system_type_id][a], h)),
        g.registered.contains(dependency_handler(g.dependencies[h.event_system_type_id][b], h)),
        !out.contains(dependency_handler(g.dependencies[h.event_system_type_id][b], h)),
        forall|k: int| 0 <= k <= a ==> !waits_through(
            g,
            #[trigger] dependency_handler(g.dependencies[h.event_system_type_id][k], h),
            dependency_handler(g.dependencies[h.event_system_type_id][b], h),
        ),
    ensures
        visit(g, h, path, fuel, out) matches Ok(o) ==> exists|p: int, q: int|
            0 <= p < q < o.len() && #[trigger] o[p] == dependency_handler(g.dependencies[h.event_system_type_id][a], h)
                && #[trigger] o[q] == dependency_handler(g.dependencies[h.event_system_type_id][b], h),
{
    let deps = g.dependencies[h.event_system_type_id];
    let db = dependency_handler(deps[b], h);
    if out.contains(h) {
        let i = choose|i: int| 0 <= i < out.len() && out[i] == h;
        assert(waits_for(g, h, db)) by {
            assert(db == dependency_handler(g.dependencies[h.event_system_type_id][b], h));
        }
        assert(waits_for(g, out[i], db));
        assert(out.take(i).contains(db));
        let k = choose|k: int| 0 <= k < out.take(i).len() && out.take(i)[k] == db;
        assert(out[k] == db);
        assert(out.contains(db));
        assert(false);
    } else if fuel == 0 || path.contains(h) {
    } else {
        let p2 = path.push(h);
        lemma_dependencies_placed_in_listed_order(g, h, deps, 0, p2, (fuel - 1) as nat, out, a, b);
        match visit_dependencies(g, h, deps, 0, p2, (fuel - 1) as nat, out) {
            Ok(o1) => {
                let (p, q) = choose|p: int, q: int|
                    0 <= p < q < o1.len() && #[trigger] o1[p] == dependency_handler(deps[a], h) && #[trigger] o1[q] == db;
                let o = o1.push(h);
                assert(o[p] == o1[p] && o[q] == o1[q]);
                assert(visit(g, h, path, fuel, out) == Ok::<Seq<EventHandler>, PlanError>(o));
                let r = visit(g, h, path, fuel, out)->Ok_0;
                assert(r == o);
                assert(0 <= p < q < r.len() && r[p] == dependency_handler(deps[a], h) && r[q] == db);
            },
            Err(_) => {},
        }
    }
}

/// In the order formed for an event, the dependencies of the first handler registered for it
/// are placed in the order its system lists them: where `deps[a]` comes before `deps[b]`, both
/// have registered handlers for the event, and the handler of `deps[b]` is reached from none of
/// the handlers of `deps[..=a]`, the handler of `deps[a]` runs before that of `deps[b]`.
pub proof fn lemma_event_order_keeps_listed_dependency_order(g: HandlerGraph, e: u64, a: int, b: int)
    requires
        handlers_of(g.handlers, e).len() > 0,
        forall|k: int|
            0 <= k < handlers_of(g.handlers, e).len() ==> g.registered.contains(
                #[trigger] handlers_of(g.handlers, e)[k],
            ) && handlers_of(g.handlers, e)[k].event_type_id == e,
        g.dependencies.contains_key(handlers_of(g.handlers, e)[0].event_system_type_id),
        0 <= a < b < g.dependencies[handlers_of(g.handlers, e)[0].event_system_type_id].len(),
        g.registered.contains(dependency_handler(
            g.dependencies[handlers_of(g.handlers, e)[0].event_system_type_id][a],
            handlers_of(g.handlers, e)[0],
        )),
        g.registered.contains(dependency_handler(
            g.dependencies[handlers_of(g.handlers, e)[0].event_system_type_id][b],
            handlers_of(g.handlers, e)[0],
        )),
        forall|k: int| 0 <= k <= a ==> !waits_through(
            g,
            #[trigger] dependency_handler(
                g.dependencies[handlers_of(g.handlers, e)[0].event_system_type_id][k],
                handlers_of(g.handlers, e)[0],
            ),
            dependency_handler(
                g.dependencies[handlers_of(g.handlers, e)[0].event_system_type_id][b],
                handlers_of(g.handlers, e)[0],
            ),
        ),
    ensures
        event_order(g, e) matches Ok(o) ==> exists|p: int, q: int|
            0 <= p < q < o.len() && #[trigger] o[p] == dependency_handler(
                g.dependencies[handlers_of(g.handlers, e)[0].event_system_type_id][a],
                handlers_of(g.handlers, e)[0],
            ) && #[trigger] o[q] == dependency_handler(
                g.dependencies[handlers_of(g.handlers, e)[0].event_system_type_id][b],
                handlers_of(g.handlers, e)[0],
            ),
{
    let roots = handlers_of(g.handlers, e);
    let h = roots[0];
    let deps = g.dependencies[h.event_system_type_id];
    let empty = Seq::<EventHandler>::empty();
    let fuel = g.registered.len();
    assert(dependencies_first(g, empty));
    lemma_visit_places_dependencies_in_listed_order(g, h, empty, fuel, empty, a, b);
    lemma_visit(g, h, empty, fuel, empty);
    match visit(g, h, empty, fuel, empty) {
        Ok(o1) => {
            lemma_visit_all(g, roots, 1, fuel, o1, e);
            match visit_all(g, roots, 1, fuel, o1) {
                Ok(o) => {
                    let (p, q) = choose|p: int, q: int|
                        0 <= p < q < o1.len() && #[trigger] o1[p] == dependency_handler(deps[a], h) && #[trigger] o1[q]
                            == dependency_handler(deps[b], h);
                    assert(o[p] == o1[p] && o[q] == o1[q]);
                    let r = event_order(g, e)->Ok_0;
                    assert(r == o);
                    assert(0 <= p < q < r.len() && r[p] == dependency_handler(deps[a], h) && r[q] == dependency_handler(deps[b], h));
                },
                Err(_) => {},
            }
        },
        Err(_) => {},
    }
}

proof fn lemma_roots_placed_in_order(
    g: HandlerGraph,
    roots: Seq<EventHandler>,
    i: nat,
    fuel: nat,
    out: Seq<EventHandler>,
    e: u64,
    a: int,
    b: int,
)
    requires
        out.no_duplicates(),
        dependencies_first(g, out),
        forall|k: int| 0 <= k < roots.len() ==> g.registered.contains(#[trigger] roots[k]) && roots[k].event_type_id == e,
        i <= a < b < roots.len(),
        !out.contains(roots[b]),
        forall|k: int| i <= k <= a ==> !waits_through(g, #[trigger] roots[k], roots[b]),
    ensures
        visit_all(g, roots, i, fuel, out) matches Ok(o) ==> exists|p: int, q: int|
            0 <= p < q < o.len() && #[trigger] o[p] == roots[a] && #[trigger] o[q] == roots[b],
    decreases roots.len() - i,
{
    let h = roots[i as int];
    lemma_visit(g, h, Seq::empty(), fuel, out);
    lemma_visit_adds_reachable(g, h, Seq::empty(), fuel, out);
    match visit(g, h, Seq::empty(), fuel, out) {
        Ok(o1) => {
            assert(!o1.contains(roots[b])) by {
                if o1.contains(roots[b]) {
                    assert(waits_through(g, h, roots[b]));
                }
            }
            if a == i {
                lemma_visit_all(g, roots, i + 1, fuel, o1, e);
                match visit_all(g, roots, i + 1, fuel, o1) {
                    Ok(o) => {
                        let p = choose|p: int| 0 <= p < o1.len() && o1[p] == h;
                        assert(o.contains(roots[b]));
                        let q = choose|q: int| 0 <= q < o.len() && o[q] == roots[b];
                        assert(o[p] == o1[p]);
                        if q < o1.len() {
                            assert(o1[q] == roots[b]);
                            assert(o1.contains(roots[b]));
                        }
                        let r = visit_all(g, roots, i, fuel, out)->Ok_0;
                        assert(r == o);
                        assert(0 <= p < q < r.len() && r[p] == roots[a] && r[q] == roots[b]);
                    },
                    Err(_) => {},
                }
            } else {
                lemma_roots_placed_in_order(g, roots, i + 1, fuel, o1, e, a, b);
            }
        },
        Err(_) => {},
    }
}

/// The handlers registered for an event run in registration order: where handler `a` was
/// registered before handler `b` and `b` is reached from none of the handlers registered up to
/// `a` (it is none of them, and none waits for it, directly or through others), `a` runs first.
pub proof fn lemma_event_order_keeps_registration_order(g: HandlerGraph, e: u64, a: int, b: int)
    requires
        forall|k: int|
            0 <= k < handlers_of(g.handlers, e).len() ==> g.registered.contains(
                #[trigger] handlers_of(g.handlers, e)[k],
            ) && handlers_of(g.handlers, e)[k].event_type_id == e,
        0 <= a < b < handlers_of(g.handlers, e).len(),
        forall|k: int| 0 <= k <= a ==> !waits_through(
            g,
            #[trigger] handlers_of(g.handlers, e)[k],
            handlers_of(g.handlers, e)[b],
        ),
    ensures
        event_order(g, e) matches Ok(o) ==> exists|p: int, q: int|
            0 <= p < q < o.len() && #[trigger] o[p] == handlers_of(g.handlers, e)[a] && #[trigger] o[q]
                == handlers_of(g.handlers, e)[b],
{
    let empty = Seq::<EventHandler>::empty();
    assert(dependencies_first(g, empty));
    lemma_roots_placed_in_order(g, handlers_of(g.handlers, e), 0, g.registered.len(), empty, e, a, b);
}

/// Every registered handler belongs to a system whose dependencies are known.
pub open spec fn systems_known(g: HandlerGraph) -> bool {
    forall|h: EventHandler| #[trigger] g.registered.contains(h) ==> g.dependencies.contains_key(
        h.event_system_type_id,
    )
}

/// `r` reports a handler whose system is not registered.
pub open spec fn reports_missing_system<A>(r: Result<A, PlanError>) -> bool {
    r matches Err(PlanError::MissingEventSystem(_))
}

proof fn lemma_visit_known(g: HandlerGraph, h: EventHandler, path: Seq<EventHandler>, fuel: nat, out: Seq<EventHandler>)
    requires
        systems_known(g),
        g.registered.contains(h),
    ensures
        !reports_missing_system(visit(g, h, path, fuel, out)),
    decreases fuel, 0int,
{
    if out.contains(h) {
    } else if fuel == 0 || path.contains(h) {
    } else {
        let deps = g.dependencies[h.event_system_type_id];
        lemma_visit_dependencies_known(g, h, deps, 0, path.push(h), (fuel - 1) as nat, out);
    }
}

proof fn lemma_visit_dependencies_known(
    g: HandlerGraph,
    h: EventHandler,
    deps: Seq<Dependency>,
    j: nat,
    path: Seq<EventHandler>,
    fuel: nat,
    out: Seq<EventHandler>,
)
    requires
        systems_known(g),
    ensures
        !reports_missing_system(visit_dependencies(g, h, deps, j, path, fuel, out)),
    decreases fuel, deps.len() + 1 - j,
{
    if j < deps.len() {
        let d = dependency_handler(deps[j as int], h);
        if g.registered.contains(d) {
            lemma_visit_known(g, d, path, fuel, out);
            match visit(g, d, path, fuel, out) {
                Ok(o) => lemma_visit_dependencies_known(g, h, deps, j + 1, path, fuel, o),
                Err(_) => {},
            }
        } else {
            lemma_visit_dependencies_known(g, h, deps, j + 1, path, fuel, out);
        }
    }
}

proof fn lemma_visit_all_known(g: HandlerGraph, roots: Seq<EventHandler>, i: nat, fuel: nat, out: Seq<EventHandler>)
    requires
        systems_known(g),
        forall|k: int| 0 <= k < roots.len() ==> g.registered.contains(#[trigger] roots[k]),
    ensures
        !reports_missing_system(visit_all(g, roots, i, fuel, out)),
    decreases roots.len() - i,
{
    if i < roots.len() {
        lemma_visit_known(g, roots[i as int], Seq::empty(), fuel, out);
        match visit(g, roots[i as int], Seq::empty(), fuel, out) {
            Ok(o) => lemma_visit_all_known(g, roots, i + 1, fuel, o),
            Err(_) => {},
        }
    }
}

/// Where every registered handler belongs to a system whose dependencies are known, and every
/// listed handler is registered, ordering the handlers of an event never reports a missing
/// system.
pub proof fn lemma_known_systems_event_order(g: HandlerGraph, e: u64)
    requires
        systems_known(g),
        forall|k: int|
            0 <= k < handlers_of(g.handlers, e).len() ==> g.registered.contains(
                #[trigger] handlers_of(g.handlers, e)[k],
            ),
    ensures
        !reports_missing_system(event_order(g, e)),
{
    lemma_visit_all_known(g, handlers_of(g.handlers, e), 0, g.registered.len(), Seq::empty());
}

/// Under the same conditions, for every event type, planning a batch of events never reports a
/// missing system.
pub proof fn lemma_known_systems_linear_execution(g: HandlerGraph, events: Seq<u64>)
    requires
        systems_known(g),
        forall|e: u64, k: int|
            0 <= k < handlers_of(g.handlers, e).len() ==> g.registered.contains(
                #[trigger] handlers_of(g.handlers, e)[k],
            ),
    ensures
        !reports_missing_system(linear_execution_spec(g, events)),
    decreases events.len(),
{
    if events.len() > 0 {
        lemma_known_systems_linear_execution(g, events.drop_last());
        lemma_known_systems_event_order(g, events.last());
    }
}

/// Whether the systems of two executions may run at the same time.
pub open spec fn executions_compatible(
    compat: Set<(u64, u64)>,
    a: EventHandlerExecution,
    b: EventHandlerExecution,
) -> bool {
    compat.contains(
        compatibility_key(a.event_handler.event_system_type_id, b.event_handler.event_system_type_id),
    )
}

/// Cuts `s` into levels: a new level starts at each execution whose system may not run at
/// the same time as the system of the execution before it. No executions give one empty level.
pub open spec fn levels(compat: Set<(u64, u64)>, s: Seq<EventHandlerExecution>) -> Seq<
    Seq<EventHandlerExecution>,
>
    decreases s.len(),
{
    if s.len() == 0 {
        seq![Seq::empty()]
    } else if s.len() == 1 {
        seq![seq![s[0]]]
    } else {
        let prev = levels(compat, s.drop_last());
        if executions_compatible(compat, s[s.len() - 2], s.last()) {
            prev.update(prev.len() - 1, prev.last().push(s.last()))
        } else {
            prev.push(seq![s.last()])
        }
    }
}

/// The levels hold the executions in their order: joined up, they give the executions back.
/// Each level is nonempty, unless there are no executions at all.
pub proof fn lemma_levels_keep_executions(compat: Set<(u64, u64)>, s: Seq<EventHandlerExecution>)
    ensures
        levels(compat, s).len() >= 1,
        levels(compat, s).flatten_alt() == s,
        levels(compat, s).flatten() == s,
        s.len() > 0 ==> forall|k: int| 0 <= k < levels(compat, s).len() ==> (#[trigger] levels(compat, s)[k]).len() > 0,
    decreases s.len(),
{
    let l = levels(compat, s);
    if s.len() <= 1 {
        assert(l.drop_last() =~= Seq::<Seq<EventHandlerExecution>>::empty());
        assert(l.drop_last().flatten_alt() == Seq::<EventHandlerExecution>::empty());
        assert(l.flatten_alt() == l.drop_last().flatten_alt() + l.last());
        assert(l.flatten_alt() =~= s);
    } else {
        let prev = levels(compat, s.drop_last());
        lemma_levels_keep_executions(compat, s.drop_last());
        assert(prev.flatten_alt() == prev.drop_last().flatten_alt() + prev.last());
        if executions_compatible(compat, s[s.len() - 2], s.last()) {
            assert(l.drop_last() =~= prev.drop_last());
            assert(l.last() == prev.last().push(s.last()));
            assert(l.flatten_alt() == l.drop_last().flatten_alt() + l.last());
            assert(s =~= s.drop_last().push(s.last()));
            assert(l.flatten_alt() =~= s);
        } else {
            assert(l.drop_last() =~= prev);
            assert(l.flatten_alt() == l.drop_last().flatten_alt() + l.last());
            assert(l.flatten_alt() =~= s);
        }
    }
    l.lemma_flatten_and_flatten_alt_are_equivalent();
}

/// Within a level, each execution's system may run at the same time as the system of the
/// execution before it; where one level ends and the next begins, the two systems may not.
pub proof fn lemma_levels_split_at_conflicts(compat: Set<(u64, u64)>, s: Seq<EventHandlerExecution>)
    ensures
        forall|k: int, i: int|
            0 <= k < levels(compat, s).len() && 0 <= i && i + 1 < levels(compat, s)[k].len()
                ==> executions_compatible(
                compat,
                #[trigger] levels(compat, s)[k][i],
                levels(compat, s)[k][i + 1],
            ),
        forall|k: int|
            0 <= k && k + 1 < levels(compat, s).len() ==> !executions_compatible(
                compat,
                (#[trigger] levels(compat, s)[k]).last(),
                levels(compat, s)[k + 1][0],
            ),
    decreases s.len(),
{
    let l = levels(compat, s);
    if s.len() >= 2 {
        let prev = levels(compat, s.drop_last());
        lemma_levels_split_at_conflicts(compat, s.drop_last());
        lemma_levels_keep_executions(compat, s.drop_last());
        lemma_levels_keep_executions(compat, s);
        // the last execution before s.last() closes the last level of prev
        assert(prev.flatten_alt() == prev.drop_last().flatten_alt() + prev.last());
        assert(prev.last().last() == s[s.len() - 2]) by {
            assert(prev.last().len() > 0);
            assert(s.drop_last() == prev.drop_last().flatten_alt() + prev.last());
        }
        if executions_compatible(compat, s[s.len() - 2], s.last()) {
            assert forall|k: int, i: int|
                0 <= k < l.len() && 0 <= i && i + 1 < l[k].len() implies executions_compatible(
                compat,
                #[trigger] l[k][i],
                l[k][i + 1],
            ) by {
                if k < l.len() - 1 {
                    assert(l[k] == prev[k]);
                } else if i + 1 < prev.last().len() {
                    assert(l[k][i] == prev[k][i]);
                    assert(l[k][i + 1] == prev[k][i + 1]);
                } else {
                    assert(l[k][i] == prev.last().last());
                }
            }
            assert forall|k: int|
                0 <= k && k + 1 < l.len() implies !executions_compatible(
                compat,
                (#[trigger] l[k]).last(),
                l[k + 1][0],
            ) by {
                assert(l[k] == prev[k]);
                if k + 1 < l.len() - 1 {
                    assert(l[k + 1] == prev[k + 1]);
                } else {
                    assert(l[k + 1][0] == prev[k + 1][0]);
                }
            }
        } else {
            assert forall|k: int, i: int|
                0 <= k < l.len() && 0 <= i && i + 1 < l[k].len() implies executions_compatible(
                compat,
                #[trigger] l[k][i],
                l[k][i + 1],
            ) by {
                assert(k < prev.len());
                assert(l[k] == prev[k]);
            }
            assert forall|k: int|
                0 <= k && k + 1 < l.len() implies !executions_compatible(
                compat,
                (#[trigger] l[k]).last(),
                l[k + 1][0],
            ) by {
                assert(l[k] == prev[k]);
                if k + 1 < prev.len() {
                    assert(l[k + 1] == prev[k + 1]);
                }
            }
        }
    }
}

/// The executions of the system `system`.
pub open spec fn of_system_execution(system: u64) -> spec_fn(EventHandlerExecution) -> bool {
    |x: EventHandlerExecution| x.event_handler.event_system_type_id == system
}

} // verus!
