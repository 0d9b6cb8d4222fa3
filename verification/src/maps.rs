use vstd::prelude::*;

use crate::event_handler::EventHandler;
use crate::keyed::{KeyedVec, U64Map};
use crate::{
    Dependency,
    depends_on,
    find_dependency,
    first_dependency,
    spec_depends_on,
};

verus! {

/// Whether a handler belongs to a system other than `system`.
pub open spec fn not_of_system(system: u64) -> spec_fn(EventHandler) -> bool {
    |h: EventHandler| h.event_system_type_id != system
}

/// The handlers of `hs` kept in order, without those of the system `system`.
pub fn handlers_without_system(hs: &Vec<EventHandler>, system: u64) -> (r: Vec<EventHandler>)
    ensures
        r@ == hs@.filter(not_of_system(system)),
{
    let mut r: Vec<EventHandler> = Vec::new();
    let mut i: usize = 0;
    assert(hs@.take(0) =~= Seq::<EventHandler>::empty());
    while i < hs.len()
        invariant
            i <= hs@.len(),
            r@ == hs@.take(i as int).filter(not_of_system(system)),
        decreases hs@.len() - i,
    {
        proof {
            assert(hs@.take(i + 1) =~= hs@.take(i as int).push(hs@[i as int]));
            hs@.take(i as int).lemma_filter_push(hs@[i as int], not_of_system(system));
        }
        if hs[i].event_system_type_id != system {
            r.push(hs[i]);
        }
        i = i + 1;
    }
    assert(hs@.take(i as int) =~= hs@);
    r
}

/// For each event type, the handlers registered for it, in registration order.
pub struct EventToHandlersMap {
    map: U64Map<Vec<EventHandler>>,
}

impl View for EventToHandlersMap {
    type V = Map<u64, Seq<EventHandler>>;

    closed spec fn view(&self) -> Map<u64, Seq<EventHandler>> {
        self.map@.map_values(|v: Vec<EventHandler>| v@)
    }
}

/// The handlers that `m` lists for the event `e`; none where it lists nothing.
pub open spec fn handlers_of(m: Map<u64, Seq<EventHandler>>, e: u64) -> Seq<EventHandler> {
    if m.contains_key(e) {
        m[e]
    } else {
        Seq::empty()
    }
}

impl EventToHandlersMap {
    pub fn new() -> (m: Self)
        ensures
            m@ == Map::<u64, Seq<EventHandler>>::empty(),
    {
        let m = EventToHandlersMap { map: U64Map::new() };
        assert(m@ =~= Map::<u64, Seq<EventHandler>>::empty());
        m
    }

    pub fn get(&self, event_type_id: &u64) -> (r: Option<&Vec<EventHandler>>)
        ensures
            match r {
                Some(v) => self@.contains_key(*event_type_id) && v@ == self@[*event_type_id],
                None => !self@.contains_key(*event_type_id),
            },
    {
        self.map.get(event_type_id)
    }

    /// Appends `handler` to the handlers of its event type.
    pub fn push(&mut self, handler: EventHandler)
        ensures
            final(self)@ == old(self)@.insert(
                handler.event_type_id,
                handlers_of(old(self)@, handler.event_type_id).push(handler),
            ),
    {
        let k = handler.event_type_id;
        match self.map.remove(&k) {
            Some(mut hs) => {
                hs.push(handler);
                self.map.insert(k, hs);
            },
            None => {
                let mut hs: Vec<EventHandler> = Vec::new();
                hs.push(handler);
                self.map.insert(k, hs);
            },
        }
        assert(self@ =~= old(self)@.insert(
            handler.event_type_id,
            handlers_of(old(self)@, handler.event_type_id).push(handler),
        ));
    }

    /// Drops the handlers of the system `event_system_type_id` from every list.
    pub fn remove_event_system(&mut self, event_system_type_id: &u64)
        ensures
            final(self)@ == old(self)@.map_values(
                |hs: Seq<EventHandler>| hs.filter(not_of_system(*event_system_type_id)),
            ),
    {
        let system = *event_system_type_id;
        let ghost old_view = self@;
        let keys = self.map.keys();
        let mut i: usize = 0;
        while i < keys.len()
            invariant
                i <= keys@.len(),
                keys@.no_duplicates(),
                forall|k: u64| #[trigger] keys@.contains(k) <==> old_view.contains_key(k),
                self@.dom() == old_view.dom(),
                forall|j: int|
                    0 <= j < i ==> #[trigger] self@[keys@[j]] == old_view[keys@[j]].filter(
                        not_of_system(system),
                    ),
                forall|j: int| i <= j < keys@.len() ==> #[trigger] self@[keys@[j]] == old_view[keys@[j]],
            decreases keys@.len() - i,
        {
            let k = keys[i];
            assert(keys@.contains(k));
            let ghost before = self@;
            match self.map.remove(&k) {
                Some(hs) => {
                    let kept = handlers_without_system(&hs, system);
                    self.map.insert(k, kept);
                },
                None => {},
            }
            proof {
                assert(self@ =~= before.insert(k, before[k].filter(not_of_system(system))));
                assert forall|j: int| 0 <= j < keys@.len() && j != i implies keys@[j] != k by {}
            }
            i = i + 1;
        }
        proof {
            assert forall|k: u64| #[trigger] self@.contains_key(k) implies self@[k] == old_view[k].filter(
                not_of_system(system),
            ) by {
                assert(keys@.contains(k));
                let j = choose|j: int| 0 <= j < keys@.len() && keys@[j] == k;
            }
            assert(self@ =~= old_view.map_values(
                |hs: Seq<EventHandler>| hs.filter(not_of_system(system)),
            ));
        }
    }
}

/// An event system held by the library: the system itself and what it depends on.
pub struct TypeErasedEventSystem<T> {
    pub event_system: T,
    pub dependencies: Vec<Dependency>,
}

/// The event systems, by type.
pub struct EventSystemMap<T> {
    map: U64Map<TypeErasedEventSystem<T>>,
}

impl<T> View for EventSystemMap<T> {
    type V = Map<u64, TypeErasedEventSystem<T>>;

    closed spec fn view(&self) -> Map<u64, TypeErasedEventSystem<T>> {
        self.map@
    }
}

/// The dependencies of every system of `m`, by type.
pub open spec fn dependency_view<T>(m: Map<u64, TypeErasedEventSystem<T>>) -> Map<
    u64,
    Seq<Dependency>,
> {
    m.map_values(|s: TypeErasedEventSystem<T>| s.dependencies@)
}

impl<T> EventSystemMap<T> {
    pub fn new() -> (m: Self)
        ensures
            m@ == Map::<u64, TypeErasedEventSystem<T>>::empty(),
    {
        EventSystemMap { map: U64Map::new() }
    }

    /// Stores `event_system` under `type_id`, giving back the system it replaced.
    pub fn insert(&mut self, type_id: u64, event_system: T, dependencies: Vec<Dependency>) -> (r:
        Option<TypeErasedEventSystem<T>>)
        ensures
            final(self)@ == old(self)@.insert(
                type_id,
                TypeErasedEventSystem { event_system, dependencies },
            ),
            match r {
                Some(p) => old(self)@.contains_key(type_id) && p == old(self)@[type_id],
                None => !old(self)@.contains_key(type_id),
            },
    {
        self.map.insert(type_id, TypeErasedEventSystem { event_system, dependencies })
    }

    pub fn remove(&mut self, type_id: &u64) -> (r: Option<TypeErasedEventSystem<T>>)
        ensures
            final(self)@ == old(self)@.remove(*type_id),
            match r {
                Some(p) => old(self)@.contains_key(*type_id) && p == old(self)@[*type_id],
                None => !old(self)@.contains_key(*type_id),
            },
    {
        self.map.remove(type_id)
    }

    pub fn get_raw(&self, event_system_type_id: &u64) -> (r: Option<&TypeErasedEventSystem<T>>)
        ensures
            match r {
                Some(p) => self@.contains_key(*event_system_type_id) && *p
                    == self@[*event_system_type_id],
                None => !self@.contains_key(*event_system_type_id),
            },
    {
        self.map.get(event_system_type_id)
    }

    pub fn get(&self, type_id: &u64) -> (r: Option<&T>)
        ensures
            match r {
                Some(p) => self@.contains_key(*type_id) && *p == self@[*type_id].event_system,
                None => !self@.contains_key(*type_id),
            },
    {
        match self.map.get(type_id) {
            Some(s) => Some(&s.event_system),
            None => None,
        }
    }

    pub fn contains(&self, type_id: &u64) -> (b: bool)
        ensures
            b == self@.contains_key(*type_id),
    {
        self.map.contains_key(type_id)
    }

    /// The types of the stored systems, each once.
    pub fn type_ids(&self) -> (ks: Vec<u64>)
        ensures
            ks@.no_duplicates(),
            forall|k: u64| #[trigger] ks@.contains(k) <==> self@.contains_key(k),
    {
        self.map.keys()
    }
}

/// Each handler, by the pair of its system and its event type, with what runs it.
pub struct HandlerMap<H> {
    map: KeyedVec<EventHandler, H>,
}

impl<H> View for HandlerMap<H> {
    type V = Map<EventHandler, H>;

    closed spec fn view(&self) -> Map<EventHandler, H> {
        self.map@
    }
}

impl<H> HandlerMap<H> {
    pub closed spec fn wf(&self) -> bool {
        self.map.wf()
    }

    pub fn new() -> (m: Self)
        ensures
            m.wf(),
            m@ == Map::<EventHandler, H>::empty(),
    {
        HandlerMap { map: KeyedVec::new() }
    }

    /// Registers `handler`, giving back what ran it before.
    pub fn insert(&mut self, handler: EventHandler, run: H) -> (r: Option<H>)
        requires
            old(self).wf(),
        ensures
            final(self).wf(),
            final(self)@ == old(self)@.insert(handler, run),
            match r {
                Some(p) => old(self)@.contains_key(handler) && p == old(self)@[handler],
                None => !old(self)@.contains_key(handler),
            },
    {
        self.map.insert(handler, run)
    }

    pub fn get(&self, event_system_type_id: u64, event_type_id: u64) -> (r: Option<&H>)
        requires
            self.wf(),
        ensures
            match r {
                Some(p) => self@.contains_key(EventHandler { event_system_type_id, event_type_id })
                    && *p == self@[EventHandler { event_system_type_id, event_type_id }],
                None => !self@.contains_key(EventHandler { event_system_type_id, event_type_id }),
            },
    {
        self.map.get(&EventHandler { event_system_type_id, event_type_id })
    }

    pub fn contains(&self, event_system_type_id: u64, event_type_id: u64) -> (b: bool)
        requires
            self.wf(),
        ensures
            b == self@.contains_key(EventHandler { event_system_type_id, event_type_id }),
    {
        self.map.contains_key(&EventHandler { event_system_type_id, event_type_id })
    }

    pub fn len(&self) -> (n: usize)
        requires
            self.wf(),
        ensures
            n == self@.dom().len(),
    {
        self.map.len()
    }

    /// Finitely many handlers are registered.
    pub proof fn lemma_finite(&self)
        requires
            self.wf(),
        ensures
            self@.dom().finite(),
    {
        self.map.lemma_finite();
    }

    /// Drops every handler of the system `event_system_type_id`.
    pub fn remove_event_system(&mut self, event_system_type_id: &u64)
        requires
            old(self).wf(),
        ensures
            final(self).wf(),
            final(self)@ == old(self)@.restrict(
                old(self)@.dom().filter(not_of_system(*event_system_type_id)),
            ),
    {
        let system = *event_system_type_id;
        let ghost old_view = self@;
        let keys = self.map.keys();
        let mut i: usize = 0;
        assert forall|j: int| 0 <= j < keys@.len() implies #[trigger] self@.contains_key(keys@[j]) by {
            assert(keys@.contains(keys@[j]));
        }
        while i < keys.len()
            invariant
                self.wf(),
                i <= keys@.len(),
                keys@.no_duplicates(),
                forall|k: EventHandler| #[trigger] keys@.contains(k) <==> old_view.contains_key(k),
                forall|k: EventHandler| #[trigger]
                    self@.contains_key(k) ==> old_view.contains_key(k) && self@[k] == old_view[k],
                forall|j: int|
                    0 <= j < i ==> (#[trigger] self@.contains_key(keys@[j]) <==> keys@[j].event_system_type_id
                        != system),
                forall|j: int| i <= j < keys@.len() ==> #[trigger] self@.contains_key(keys@[j]),
            decreases keys@.len() - i,
        {
            let k = keys[i];
            let ghost before = self@;
            if k.event_system_type_id == system {
                self.map.remove(&k);
            }
            proof {
                assert forall|j: int| 0 <= j < keys@.len() && j != i implies keys@[j] != k by {}
            }
            i = i + 1;
        }
        proof {
            assert forall|k: EventHandler| #[trigger] self@.contains_key(k) <==> (old_view.contains_key(k)
                && not_of_system(system)(k)) by {
                if old_view.contains_key(k) {
                    assert(keys@.contains(k));
                    let j = choose|j: int| 0 <= j < keys@.len() && keys@[j] == k;
                }
            }
            assert(self@ =~= old_view.restrict(old_view.dom().filter(not_of_system(system))));
        }
    }
}

/// The table key of the unordered pair of systems `a` and `b`: the larger type first.
pub open spec fn compatibility_key(a: u64, b: u64) -> (u64, u64) {
    if a >= b {
        (a, b)
    } else {
        (b, a)
    }
}

/// Whether two systems share a dependency that either holds mutably; where `other` lists a
/// system more than once, its first entry for that system counts.
pub open spec fn dependencies_conflict(deps: Seq<Dependency>, other: Seq<Dependency>) -> bool {
    exists|j: int|
        0 <= j < deps.len() && match first_dependency(other, (#[trigger] deps[j]).type_id) {
            Some(o) => deps[j].mutable || o.mutable,
            None => false,
        }
}

/// Whether the system `a` (with dependencies `deps_a`) may handle events at the same time as
/// the system `b` (with `deps_b`): neither depends on the other, and no shared dependency is
/// held mutably by either.
pub open spec fn systems_compatible(
    a: u64,
    deps_a: Seq<Dependency>,
    b: u64,
    deps_b: Seq<Dependency>,
) -> bool {
    &&& !spec_depends_on(deps_b, a)
    &&& !spec_depends_on(deps_a, b)
    &&& !dependencies_conflict(deps_a, deps_b)
}

/// The pairs that registering the system `type_id` with `deps` next to the systems `systems`
/// adds: the system with itself, and with each system it is compatible with.
pub open spec fn new_compatibilities(
    type_id: u64,
    deps: Seq<Dependency>,
    systems: Map<u64, Seq<Dependency>>,
) -> Set<(u64, u64)> {
    Set::new(
        |p: (u64, u64)|
            p == (type_id, type_id) || exists|x: u64|
                #[trigger] systems.contains_key(x) && systems_compatible(
                    type_id,
                    deps,
                    x,
                    systems[x],
                ) && p == compatibility_key(type_id, x),
    )
}

/// Compatibility does not depend on the order the two systems are named in.
pub proof fn lemma_compatibility_symmetric(compat: Set<(u64, u64)>, a: u64, b: u64)
    ensures
        compat.contains(compatibility_key(a, b)) == compat.contains(compatibility_key(b, a)),
{
}

/// A system being registered may always run beside itself.
pub proof fn lemma_registered_system_compatible_with_itself(
    type_id: u64,
    deps: Seq<Dependency>,
    systems: Map<u64, Seq<Dependency>>,
)
    ensures
        new_compatibilities(type_id, deps, systems).contains(compatibility_key(type_id, type_id)),
{
}

/// Registering a system never lets it run beside another system that depends on it, that it
/// depends on, or that shares a dependency with it that either holds mutably.
pub proof fn lemma_conflicting_systems_not_paired(
    type_id: u64,
    deps: Seq<Dependency>,
    systems: Map<u64, Seq<Dependency>>,
    other: u64,
)
    requires
        other != type_id,
        systems.contains_key(other),
        !systems_compatible(type_id, deps, other, systems[other]),
    ensures
        !new_compatibilities(type_id, deps, systems).contains(compatibility_key(type_id, other)),
{
    if new_compatibilities(type_id, deps, systems).contains(compatibility_key(type_id, other)) {
        let p = compatibility_key(type_id, other);
        assert(p != (type_id, type_id));
        let x = choose|x: u64|
            #[trigger] systems.contains_key(x) && systems_compatible(type_id, deps, x, systems[x])
                && p == compatibility_key(type_id, x);
        assert(x == other);
    }
}

/// Once a system is forgotten, it may run beside no system.
pub proof fn lemma_forgotten_system_compatible_with_none(compat: Set<(u64, u64)>, type_id: u64, other: u64)
    ensures
        !compat.filter(pair_avoids(type_id)).contains(compatibility_key(type_id, other)),
        !compat.filter(pair_avoids(type_id)).contains(compatibility_key(other, type_id)),
{
}

/// Whether `deps` and `other` share a dependency that either holds mutably.
pub fn dependencies_conflict_exec(deps: &Vec<Dependency>, other: &Vec<Dependency>) -> (b: bool)
    ensures
        b == dependencies_conflict(deps@, other@),
{
    let mut i: usize = 0;
    while i < deps.len()
        invariant
            i <= deps@.len(),
            forall|j: int|
                0 <= j < i ==> match first_dependency(other@, (#[trigger] deps@[j]).type_id) {
                    Some(o) => !(deps@[j].mutable || o.mutable),
                    None => true,
                },
        decreases deps@.len() - i,
    {
        let dep = deps[i];
        match find_dependency(other, dep.type_id) {
            Some(o) => {
                if dep.mutable || o.mutable {
                    assert(deps@[i as int] == dep);
                    return true;
                }
            },
            None => {},
        }
        i = i + 1;
    }
    false
}

/// The pairs that do not involve the system `type_id`.
pub open spec fn pair_avoids(type_id: u64) -> spec_fn((u64, u64)) -> bool {
    |p: (u64, u64)| p.0 != type_id && p.1 != type_id
}

/// The unordered pairs of systems that may handle events at the same time, held in a vector
/// (vstd's model of `HashSet` covers integer keys only, not pairs).
pub struct CompatibilityMap {
    pairs: Vec<(u64, u64)>,
}

impl View for CompatibilityMap {
    type V = Set<(u64, u64)>;

    closed spec fn view(&self) -> Set<(u64, u64)> {
        self.pairs@.to_set()
    }
}

impl CompatibilityMap {
    pub fn new() -> (m: Self)
        ensures
            m@ == Set::<(u64, u64)>::empty(),
    {
        let m = CompatibilityMap { pairs: Vec::new() };
        assert(m@ =~= Set::<(u64, u64)>::empty());
        m
    }

    fn contains_pair(&self, a: u64, b: u64) -> (r: bool)
        ensures
            r == self@.contains((a, b)),
    {
        let mut i: usize = 0;
        while i < self.pairs.len()
            invariant
                i <= self.pairs@.len(),
                forall|j: int| 0 <= j < i ==> self.pairs@[j] != (a, b),
            decreases self.pairs@.len() - i,
        {
            if self.pairs[i].0 == a && self.pairs[i].1 == b {
                assert(self.pairs@.contains((a, b)));
                return true;
            }
            i = i + 1;
        }
        false
    }

    fn insert_pair(&mut self, a: u64, b: u64)
        ensures
            final(self)@ == old(self)@.insert((a, b)),
    {
        if !self.contains_pair(a, b) {
            proof {
                self.pairs@.lemma_push_to_set_commute((a, b));
            }
            self.pairs.push((a, b));
        } else {
            assert(self@ =~= old(self)@.insert((a, b)));
        }
    }

    /// Records which registered systems the system `type_id`, with dependencies `deps`, may run
    /// beside; `event_system_map` holds the systems registered so far.
    pub fn insert<T>(&mut self, type_id: u64, deps: &Vec<Dependency>, event_system_map: &EventSystemMap<T>)
        ensures
            final(self)@ == old(self)@.union(
                new_compatibilities(type_id, deps@, dependency_view(event_system_map@)),
            ),
    {
        let ghost systems = dependency_view(event_system_map@);
        let ghost target = old(self)@.union(new_compatibilities(type_id, deps@, systems));
        self.insert_pair(type_id, type_id);
        let ids = event_system_map.type_ids();
        let mut i: usize = 0;
        while i < ids.len()
            invariant
                systems == dependency_view(event_system_map@),
                target == old(self)@.union(new_compatibilities(type_id, deps@, systems)),
                i <= ids@.len(),
                forall|k: u64| #[trigger] ids@.contains(k) <==> event_system_map@.contains_key(k),
                self@.subset_of(target),
                old(self)@.subset_of(self@),
                self@.contains((type_id, type_id)),
                forall|j: int|
                    0 <= j < i && systems_compatible(type_id, deps@, ids@[j], systems[ids@[j]])
                        ==> #[trigger] self@.contains(compatibility_key(type_id, ids@[j])),
            decreases ids@.len() - i,
        {
            let other = ids[i];
            assert(ids@.contains(other));
            let other_system = event_system_map.get_raw(&other).unwrap();
            let other_deps = &other_system.dependencies;
            assert(systems[other] == other_deps@);
            let compatible = !depends_on(other_deps, type_id) && !depends_on(deps, other)
                && !dependencies_conflict_exec(deps, other_deps);
            if compatible {
                let a = if type_id >= other {
                    type_id
                } else {
                    other
                };
                let b = if type_id >= other {
                    other
                } else {
                    type_id
                };
                proof {
                    assert(systems.contains_key(other));
                    assert(systems_compatible(type_id, deps@, other, systems[other]));
                    assert((a, b) == compatibility_key(type_id, other));
                    assert(new_compatibilities(type_id, deps@, systems).contains((a, b)));
                    assert(target.contains((a, b)));
                }
                let ghost before = self@;
                self.insert_pair(a, b);
                assert(self@ == before.insert((a, b)));
                assert forall|p: (u64, u64)| self@.contains(p) implies target.contains(p) by {
                    if p != (a, b) {
                        assert(before.contains(p));
                    }
                }
            }
            i = i + 1;
        }
        proof {
            assert forall|p: (u64, u64)| target.contains(p) implies self@.contains(p) by {
                if !old(self)@.contains(p) && p != (type_id, type_id) {
                    let x = choose|x: u64|
                        #[trigger] systems.contains_key(x) && systems_compatible(
                            type_id,
                            deps@,
                            x,
                            systems[x],
                        ) && p == compatibility_key(type_id, x);
                    assert(ids@.contains(x));
                    let j = choose|j: int| 0 <= j < ids@.len() && ids@[j] == x;
                }
            }
            assert(self@ =~= target);
        }
    }

    /// Forgets every pair that involves the system `type_id`.
    pub fn remove(&mut self, type_id: &u64)
        ensures
            final(self)@ == old(self)@.filter(pair_avoids(*type_id)),
    {
        let t = *type_id;
        let mut kept: Vec<(u64, u64)> = Vec::new();
        let mut i: usize = 0;
        assert(self.pairs@.take(0) =~= Seq::<(u64, u64)>::empty());
        while i < self.pairs.len()
            invariant
                i <= self.pairs@.len(),
                kept@ == self.pairs@.take(i as int).filter(pair_avoids(t)),
            decreases self.pairs@.len() - i,
        {
            proof {
                assert(self.pairs@.take(i + 1) =~= self.pairs@.take(i as int).push(self.pairs@[i as int]));
                self.pairs@.take(i as int).lemma_filter_push(self.pairs@[i as int], pair_avoids(t));
            }
            let p = self.pairs[i];
            if p.0 != t && p.1 != t {
                kept.push(p);
            }
            i = i + 1;
        }
        let ghost old_pairs = self.pairs@;
        assert(old_pairs.take(i as int) =~= old_pairs);
        self.pairs = kept;
        proof {
            assert forall|p: (u64, u64)| #[trigger] self@.contains(p) <==> old(self)@.filter(pair_avoids(t)).contains(p) by {
                if old_pairs.contains(p) && pair_avoids(t)(p) {
                    let j = choose|j: int| 0 <= j < old_pairs.len() && old_pairs[j] == p;
                    old_pairs.lemma_filter_contains(pair_avoids(t), j);
                }
                if kept@.contains(p) {
                    let j = choose|j: int| 0 <= j < kept@.len() && kept@[j] == p;
                    old_pairs.lemma_filter_pred(pair_avoids(t), j);
                    old_pairs.lemma_filter_contains_rev(pair_avoids(t), p);
                }
            }
            assert(self@ =~= old(self)@.filter(pair_avoids(t)));
        }
    }

    /// Whether the systems `a` and `b` may handle events at the same time.
    pub fn is_compatible(&self, event_system_a_type_id: u64, event_system_b_type_id: u64) -> (b:
        bool)
        ensures
            b == self@.contains(compatibility_key(event_system_a_type_id, event_system_b_type_id)),
    {
        let a = if event_system_a_type_id >= event_system_b_type_id {
            event_system_a_type_id
        } else {
            event_system_b_type_id
        };
        let b = if event_system_a_type_id >= event_system_b_type_id {
            event_system_b_type_id
        } else {
            event_system_a_type_id
        };
        self.contains_pair(a, b)
    }
}

} // verus!
